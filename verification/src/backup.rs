use chrono::{Datelike, Timelike};
use vstd::prelude::*;

verus! {

/// The text between a directory's name and the time stamp in the name of its backup.
pub open spec fn backup_infix() -> Seq<char> {
    seq!['_', 'B', 'A', 'C', 'K', 'U', 'P', '_']
}

/// The name of the backup of the directory named `dir_name`, made at the time
/// that `stamp` writes: `<dir_name>_BACKUP_<stamp>`.
pub open spec fn backup_name(dir_name: Seq<char>, stamp: Seq<char>) -> Seq<char> {
    dir_name + backup_infix() + stamp
}

/// A local date and time, field by field as chrono's `Datelike` and `Timelike` give it.
pub struct LocalTime {
    pub year: i32,
    pub month: u32,
    pub day: u32,
    pub hour: u32,
    pub minute: u32,
    /// The second, 0 to 59; a leap second shows as 59 with `nanosecond` of a second or more.
    pub second: u32,
    pub nanosecond: u32,
}

impl LocalTime {
    /// Each field lies where chrono keeps it.
    pub open spec fn in_range(&self) -> bool {
        &&& -262144 <= self.year <= 262143
        &&& 1 <= self.month <= 12
        &&& 1 <= self.day <= 31
        &&& self.hour <= 23
        &&& self.minute <= 59
        &&& self.second <= 59
        &&& self.nanosecond < 2_000_000_000
    }

    /// The second as a clock shows it: 60 during a leap second.
    pub open spec fn shown_second(&self) -> nat {
        (self.second + self.nanosecond / 1_000_000_000) as nat
    }
}

/// The number of days from 1970-01-01 to the given date of the proleptic
/// Gregorian calendar, negative before it.
pub open spec fn days_from_civil(year: int, month: int, day: int) -> int {
    let y = if month <= 2 { year - 1 } else { year };
    let era = y / 400;
    let year_of_era = y - era * 400;
    let shifted_month = if month > 2 { month - 3 } else { month + 9 };
    let day_of_year = (153 * shifted_month + 2) / 5 + day - 1;
    let day_of_era = year_of_era * 365 + year_of_era / 4 - year_of_era / 100 + day_of_year;
    era * 146097 + day_of_era - 719468
}

/// The seconds from 1970-01-01 00:00:00 to the date and time that `time`
/// writes, read as a time of UTC.
pub open spec fn seconds_since_epoch(time: LocalTime) -> int {
    days_from_civil(time.year as int, time.month as int, time.day as int) * 86400 + time.hour
        * 3600 + time.minute * 60 + time.second
}

/// The decimal digit for `d`, below 10.
pub open spec fn digit_char(d: nat) -> char {
    if d == 0 {
        '0'
    } else if d == 1 {
        '1'
    } else if d == 2 {
        '2'
    } else if d == 3 {
        '3'
    } else if d == 4 {
        '4'
    } else if d == 5 {
        '5'
    } else if d == 6 {
        '6'
    } else if d == 7 {
        '7'
    } else if d == 8 {
        '8'
    } else {
        '9'
    }
}

/// The decimal digits of `n`, without leading zeros.
pub open spec fn decimal(n: nat) -> Seq<char>
    decreases n,
{
    if n < 10 {
        seq![digit_char(n)]
    } else {
        decimal(n / 10).push(digit_char(n % 10))
    }
}

/// `count` zeros.
pub open spec fn zeros(count: nat) -> Seq<char>
    decreases count,
{
    if count == 0 {
        Seq::empty()
    } else {
        zeros((count - 1) as nat).push('0')
    }
}

/// The decimal digits of `n`, with zeros before them up to `width` chars.
pub open spec fn padded(n: nat, width: nat) -> Seq<char> {
    let digits = decimal(n);
    if digits.len() < width {
        zeros((width - digits.len()) as nat) + digits
    } else {
        digits
    }
}

/// A year as chrono's `%Y` writes it: four digits from year 0 to 9999, else a
/// sign and at least four digits.
pub open spec fn year_text(year: int) -> Seq<char> {
    if 0 <= year <= 9999 {
        padded(year as nat, 4)
    } else if year < 0 {
        seq!['-'] + padded((-year) as nat, 4)
    } else {
        seq!['+'] + padded(year as nat, 4)
    }
}

/// A local time as chrono writes it with `%Y-%m-%d_%H-%M-%S`.
pub open spec fn stamp_text(time: LocalTime) -> Seq<char> {
    year_text(time.year as int) + seq!['-'] + padded(time.month as nat, 2) + seq!['-'] + padded(
        time.day as nat,
        2,
    ) + seq!['_'] + padded(time.hour as nat, 2) + seq!['-'] + padded(time.minute as nat, 2)
        + seq!['-'] + padded(time.shown_second(), 2)
}

/// Calls std's `SystemTime::now()` and its `duration_since(UNIX_EPOCH)`, the
/// way chrono's `Utc::now()` reads the clock, and gives the whole seconds and
/// the nanoseconds past them. `None` where the clock reads a time before 1970,
/// which `duration_since` reports as an error. Which time it reads is not
/// stated: it is the clock's.
#[verifier::external_body]
fn clock_since_epoch() -> (since: Option<(u64, u32)>)
    ensures
        since matches Some((_, nanos)) ==> nanos < 1_000_000_000,
{
    std::time::SystemTime::now().duration_since(std::time::UNIX_EPOCH).ok().map(
        |d| (d.as_secs(), d.subsec_nanos()),
    )
}

/// Calls chrono's `DateTime::from_timestamp` on a time since 1970 and turns
/// the result into local time with `with_timezone(&Local)`, as `Local::now()`
/// does, then reads its fields. `None` where `from_timestamp` finds the time
/// out of its range. The fields depend on the machine's time zone, which
/// chrono takes as an offset from UTC of less than a day (`FixedOffset::east_opt`
/// refuses any other). Claimed: each field lies where chrono keeps it; the
/// nanoseconds are those given; and the date and time written, read as UTC,
/// lie less than a day from the instant `secs` (chrono's `from_timestamp` and
/// its adding of the offset keep the calendar exact, also past its last date).
/// Where no zone is set chrono falls back to UTC; chrono panics, and this
/// with it, only where the zone data that it found names no local time type
/// for the instant, which nothing here can rule out.
#[verifier::external_body]
fn local_time_at(secs: i64, nanos: u32) -> (time: Option<LocalTime>)
    ensures
        time matches Some(t) ==> {
            &&& t.in_range()
            &&& t.nanosecond == nanos
            &&& secs - 86400 < seconds_since_epoch(t) < secs + 86400
        },
{
    chrono::DateTime::from_timestamp(secs, nanos).map(|utc| utc.with_timezone(&chrono::Local)).map(
        |t| LocalTime {
            year: t.year(),
            month: t.month(),
            day: t.day(),
            hour: t.hour(),
            minute: t.minute(),
            second: t.second(),
            nanosecond: t.nanosecond(),
        },
    )
}

/// The local time of a clock reading: whole seconds and nanoseconds since
/// 1970, or `None` for a clock that read a time before 1970. `None` too where
/// the seconds pass `i64::MAX` or chrono cannot hold the time. Otherwise the
/// time keeps the reading's nanoseconds and, read as UTC, lies less than a day
/// (the time zone's offset) from the instant read.
pub fn local_time_from_clock(since: Option<(u64, u32)>) -> (time: Option<LocalTime>)
    ensures
        match since {
            None => time is None,
            Some((secs, nanos)) => {
                &&& secs > i64::MAX ==> time is None
                &&& time matches Some(t) ==> {
                    &&& t.in_range()
                    &&& t.nanosecond == nanos
                    &&& secs - 86400 < seconds_since_epoch(t) < secs + 86400
                }
            },
        },
{
    match since {
        Some((secs, nanos)) => {
            if secs <= i64::MAX as u64 {
                local_time_at(secs as i64, nanos)
            } else {
                None
            }
        },
        None => None,
    }
}

/// The local time now, or `None` where the clock reads a time before 1970 or
/// one that chrono cannot hold.
pub fn local_time_now() -> (time: Option<LocalTime>)
    ensures
        time matches Some(t) ==> t.in_range() && t.nanosecond < 1_000_000_000,
{
    local_time_from_clock(clock_since_epoch())
}

/// The text of one decimal digit.
fn digit_text(d: u32) -> (text: &'static str)
    requires
        d < 10,
    ensures
        text@ == seq![digit_char(d as nat)],
{
    if d == 0 {
        proof { reveal_strlit("0"); }
        "0"
    } else if d == 1 {
        proof { reveal_strlit("1"); }
        "1"
    } else if d == 2 {
        proof { reveal_strlit("2"); }
        "2"
    } else if d == 3 {
        proof { reveal_strlit("3"); }
        "3"
    } else if d == 4 {
        proof { reveal_strlit("4"); }
        "4"
    } else if d == 5 {
        proof { reveal_strlit("5"); }
        "5"
    } else if d == 6 {
        proof { reveal_strlit("6"); }
        "6"
    } else if d == 7 {
        proof { reveal_strlit("7"); }
        "7"
    } else if d == 8 {
        proof { reveal_strlit("8"); }
        "8"
    } else {
        proof { reveal_strlit("9"); }
        "9"
    }
}

/// Appends the decimal digits of `n`.
fn push_decimal(text: &mut String, n: u32)
    ensures
        final(text)@ == old(text)@ + decimal(n as nat),
    decreases n,
{
    if n >= 10 {
        push_decimal(text, n / 10);
    }
    text.append(digit_text(n % 10));
    assert(text@ =~= old(text)@ + decimal(n as nat));
}

/// The number of decimal digits of `n`.
fn decimal_len(n: u32) -> (len: u64)
    ensures
        len == decimal(n as nat).len(),
        len <= n + 1,
    decreases n,
{
    if n < 10 {
        1
    } else {
        decimal_len(n / 10) + 1
    }
}

/// Appends the decimal digits of `n`, with zeros before them up to `width` chars.
fn push_padded(text: &mut String, n: u32, width: u64)
    ensures
        final(text)@ == old(text)@ + padded(n as nat, width as nat),
{
    let len = decimal_len(n);
    let mut filled = len;
    while filled < width
        invariant
            len <= filled,
            len < width ==> filled <= width,
            len >= width ==> filled == len,
            text@ == old(text)@ + zeros((filled - len) as nat),
        decreases width - filled,
    {
        let zero = "0";
        proof {
            reveal_strlit("0");
        }
        text.append(zero);
        proof {
            assert(zeros((filled + 1 - len) as nat) == zeros((filled - len) as nat).push('0'));
            assert(text@ =~= old(text)@ + zeros((filled + 1 - len) as nat));
        }
        filled += 1;
    }
    push_decimal(text, n);
    proof {
        if len < width {
            assert(filled == width);
        } else {
            assert(filled == len);
            assert(zeros(0) =~= Seq::<char>::empty());
        }
        assert(text@ =~= old(text)@ + padded(n as nat, width as nat));
    }
}

/// Appends `-`.
fn push_dash(text: &mut String)
    ensures
        final(text)@ == old(text)@ + seq!['-'],
{
    let dash = "-";
    proof {
        reveal_strlit("-");
    }
    text.append(dash);
}

/// Appends `+`.
fn push_plus(text: &mut String)
    ensures
        final(text)@ == old(text)@ + seq!['+'],
{
    let plus = "+";
    proof {
        reveal_strlit("+");
    }
    text.append(plus);
}

/// Appends `_`.
fn push_underscore(text: &mut String)
    ensures
        final(text)@ == old(text)@ + seq!['_'],
{
    let underscore = "_";
    proof {
        reveal_strlit("_");
    }
    text.append(underscore);
}

/// A local time in chrono's `%Y-%m-%d_%H-%M-%S`.
pub fn format_timestamp(time: &LocalTime) -> (stamp: String)
    requires
        time.in_range(),
    ensures
        stamp@ == stamp_text(*time),
{
    let mut stamp = String::new();
    if 0 <= time.year && time.year <= 9999 {
        push_padded(&mut stamp, time.year as u32, 4);
    } else if time.year < 0 {
        push_dash(&mut stamp);
        push_padded(&mut stamp, (0 - time.year) as u32, 4);
    } else {
        push_plus(&mut stamp);
        push_padded(&mut stamp, time.year as u32, 4);
    }
    let ghost year_part = stamp@;
    push_dash(&mut stamp);
    push_padded(&mut stamp, time.month, 2);
    push_dash(&mut stamp);
    push_padded(&mut stamp, time.day, 2);
    push_underscore(&mut stamp);
    push_padded(&mut stamp, time.hour, 2);
    push_dash(&mut stamp);
    push_padded(&mut stamp, time.minute, 2);
    push_dash(&mut stamp);
    push_padded(&mut stamp, time.second + time.nanosecond / 1_000_000_000, 2);
    proof {
        assert(year_part =~= year_text(time.year as int));
        assert(stamp@ =~= stamp_text(*time));
    }
    stamp
}

/// The name of the backup of the directory named `dir_name`, made at the time
/// that `stamp` writes.
pub fn backup_dir_name(dir_name: &str, stamp: &str) -> (name: String)
    ensures
        name@ == backup_name(dir_name@, stamp@),
{
    let infix = "_BACKUP_";
    proof {
        reveal_strlit("_BACKUP_");
    }
    let mut name = String::from_str(dir_name);
    name.append(infix);
    name.append(stamp);
    name
}

/// The name of a backup of the directory named `dir_name` made now: the name,
/// `_BACKUP_`, and the local time in chrono's `%Y-%m-%d_%H-%M-%S`. `None`
/// where the clock reads a time before 1970 or one that chrono cannot hold.
pub fn backup_name_now(dir_name: &str) -> (name: Option<String>)
    ensures
        name matches Some(name) ==> exists|time: LocalTime|
            time.in_range() && name@ == #[trigger] backup_name(dir_name@, stamp_text(time)),
{
    match local_time_now() {
        Some(time) => {
            let stamp = format_timestamp(&time);
            let name = backup_dir_name(dir_name, stamp.as_str());
            assert(name@ == backup_name(dir_name@, stamp_text(time)));
            Some(name)
        },
        None => None,
    }
}

proof fn lemma_zeros_len(count: nat)
    ensures
        zeros(count).len() == count,
    decreases count,
{
    if count > 0 {
        lemma_zeros_len((count - 1) as nat);
    }
}

proof fn lemma_padded_len(n: nat, width: nat)
    requires
        n < 10000,
        width == 4 || (width == 2 && n < 100),
    ensures
        padded(n, width).len() == width,
{
    reveal_with_fuel(decimal, 5);
    if n >= 1000 {
        assert(decimal(n).len() == 4);
    } else if n >= 100 {
        assert(decimal(n).len() == 3);
    } else if n >= 10 {
        assert(decimal(n).len() == 2);
    } else {
        assert(decimal(n).len() == 1);
    }
    let digits = decimal(n);
    if digits.len() < width {
        lemma_zeros_len((width - digits.len()) as nat);
    }
}

/// From year 0 to 9999 every stamp takes 19 chars: the year in four digits and
/// five fields in two digits each, with their separators.
pub proof fn law_stamp_length(time: LocalTime)
    requires
        time.in_range(),
        0 <= time.year <= 9999,
    ensures
        stamp_text(time).len() == 19,
{
    lemma_padded_len(time.year as nat, 4);
    lemma_padded_len(time.month as nat, 2);
    lemma_padded_len(time.day as nat, 2);
    lemma_padded_len(time.hour as nat, 2);
    lemma_padded_len(time.minute as nat, 2);
    lemma_padded_len(time.shown_second(), 2);
}

/// A backup's name holds the whole directory name, then `_BACKUP_`, then the
/// whole stamp, and nothing else.
pub proof fn law_backup_name_parts(dir_name: Seq<char>, stamp: Seq<char>)
    ensures
        backup_name(dir_name, stamp).len() == dir_name.len() + 8 + stamp.len(),
        backup_name(dir_name, stamp).take(dir_name.len() as int) == dir_name,
        backup_name(dir_name, stamp).subrange(dir_name.len() as int, dir_name.len() + 8 as int) == seq![
            '_',
            'B',
            'A',
            'C',
            'K',
            'U',
            'P',
            '_',
        ],
        backup_name(dir_name, stamp).skip(dir_name.len() + 8 as int) == stamp,
{
    let name = backup_name(dir_name, stamp);
    assert(name.take(dir_name.len() as int) =~= dir_name);
    assert(name.subrange(dir_name.len() as int, dir_name.len() + 8 as int) =~= seq![
        '_',
        'B',
        'A',
        'C',
        'K',
        'U',
        'P',
        '_',
    ]);
    assert(name.skip(dir_name.len() + 8 as int) =~= stamp);
}

/// The char that writes the decimal digit `d`, below 10.
pub open spec fn digit_of(d: int) -> char {
    (('0' as int) + d) as char
}

proof fn lemma_digit_char(d: nat)
    requires
        d < 10,
    ensures
        digit_char(d) == digit_of(d as int),
{
}

proof fn lemma_two_digits(n: nat)
    requires
        n < 100,
    ensures
        padded(n, 2) == seq![digit_of(n as int / 10), digit_of(n as int % 10)],
{
    reveal_with_fuel(decimal, 3);
    reveal_with_fuel(zeros, 2);
    lemma_digit_char(n / 10);
    lemma_digit_char(n % 10);
    if n < 10 {
        assert(zeros(1) =~= seq!['0']);
        assert(padded(n, 2) =~= seq![digit_of(n as int / 10), digit_of(n as int % 10)]);
    } else {
        assert(decimal(n / 10) =~= seq![digit_char(n / 10)]);
        assert(padded(n, 2) =~= seq![digit_of(n as int / 10), digit_of(n as int % 10)]);
    }
}

proof fn lemma_four_digits(n: nat)
    requires
        n < 10000,
    ensures
        padded(n, 4) == seq![
            digit_of(n as int / 1000),
            digit_of(n as int / 100 % 10),
            digit_of(n as int / 10 % 10),
            digit_of(n as int % 10),
        ],
{
    reveal_with_fuel(decimal, 5);
    reveal_with_fuel(zeros, 4);
    let q1 = n / 10;
    let q2 = q1 / 10;
    let q3 = q2 / 10;
    assert(q2 == n / 100 && q3 == n / 1000) by (nonlinear_arith)
        requires
            q1 == n / 10,
            q2 == q1 / 10,
            q3 == q2 / 10,
    ;
    lemma_digit_char(n % 10);
    lemma_digit_char(q1 % 10);
    lemma_digit_char(q2 % 10);
    lemma_digit_char(q3 % 10);
    let want = seq![
        digit_of(n as int / 1000),
        digit_of(n as int / 100 % 10),
        digit_of(n as int / 10 % 10),
        digit_of(n as int % 10),
    ];
    if n < 10 {
        assert(padded(n, 4) =~= want);
    } else if n < 100 {
        assert(decimal(q1) =~= seq![digit_char(q1)]);
        assert(padded(n, 4) =~= want);
    } else if n < 1000 {
        assert(decimal(q2) =~= seq![digit_char(q2)]);
        assert(decimal(q1) =~= seq![digit_char(q2), digit_char(q1 % 10)]);
        assert(padded(n, 4) =~= want);
    } else {
        assert(decimal(q3) =~= seq![digit_char(q3)]);
        assert(decimal(q2) =~= seq![digit_char(q3), digit_char(q2 % 10)]);
        assert(decimal(q1) =~= seq![digit_char(q3), digit_char(q2 % 10), digit_char(q1 % 10)]);
        assert(padded(n, 4) =~= want);
    }
}

/// The two decimal digits of `n`, below 100.
pub open spec fn two_digits(n: int) -> Seq<char> {
    seq![digit_of(n / 10), digit_of(n % 10)]
}

proof fn lemma_concat_19(
    year: Seq<char>,
    m: Seq<char>,
    d: Seq<char>,
    h: Seq<char>,
    mi: Seq<char>,
    sec: Seq<char>,
)
    requires
        year.len() == 4,
        m.len() == 2,
        d.len() == 2,
        h.len() == 2,
        mi.len() == 2,
        sec.len() == 2,
    ensures
        year + seq!['-'] + m + seq!['-'] + d + seq!['_'] + h + seq!['-'] + mi + seq!['-'] + sec
            == seq![
            year[0],
            year[1],
            year[2],
            year[3],
            '-',
            m[0],
            m[1],
            '-',
            d[0],
            d[1],
            '_',
            h[0],
            h[1],
            '-',
            mi[0],
            mi[1],
            '-',
            sec[0],
            sec[1],
        ],
{
    assert(year + seq!['-'] + m + seq!['-'] + d + seq!['_'] + h + seq!['-'] + mi + seq!['-'] + sec
        =~= seq![
        year[0],
        year[1],
        year[2],
        year[3],
        '-',
        m[0],
        m[1],
        '-',
        d[0],
        d[1],
        '_',
        h[0],
        h[1],
        '-',
        mi[0],
        mi[1],
        '-',
        sec[0],
        sec[1],
    ]);
}

/// From year 0 to 9999 the stamp of a time is, char by char: the year's four
/// digits, `-`, the month's two digits, `-`, the day's, `_`, the hour's, `-`,
/// the minute's, `-`, and the second's as a clock shows it, each field
/// zero-padded.
pub proof fn law_stamp_fields(time: LocalTime)
    requires
        time.in_range(),
        0 <= time.year <= 9999,
    ensures
        stamp_text(time) == seq![
            digit_of(time.year as int / 1000),
            digit_of(time.year as int / 100 % 10),
            digit_of(time.year as int / 10 % 10),
            digit_of(time.year as int % 10),
            '-',
            digit_of(time.month as int / 10),
            digit_of(time.month as int % 10),
            '-',
            digit_of(time.day as int / 10),
            digit_of(time.day as int % 10),
            '_',
            digit_of(time.hour as int / 10),
            digit_of(time.hour as int % 10),
            '-',
            digit_of(time.minute as int / 10),
            digit_of(time.minute as int % 10),
            '-',
            digit_of(time.shown_second() as int / 10),
            digit_of(time.shown_second() as int % 10),
        ],
{
    let y = time.year as int;
    let m = time.month as int;
    let d = time.day as int;
    let h = time.hour as int;
    let mi = time.minute as int;
    let sec = time.shown_second() as int;
    lemma_four_digits(y as nat);
    lemma_two_digits(m as nat);
    lemma_two_digits(d as nat);
    lemma_two_digits(h as nat);
    lemma_two_digits(mi as nat);
    lemma_two_digits(sec as nat);
    let year = seq![digit_of(y / 1000), digit_of(y / 100 % 10), digit_of(y / 10 % 10), digit_of(y % 10)];
    assert(year_text(y) == year);
    assert(padded(time.month as nat, 2) == two_digits(m));
    assert(padded(time.day as nat, 2) == two_digits(d));
    assert(padded(time.hour as nat, 2) == two_digits(h));
    assert(padded(time.minute as nat, 2) == two_digits(mi));
    assert(padded(time.shown_second(), 2) == two_digits(sec));
    assert(stamp_text(time) == year + seq!['-'] + two_digits(m) + seq!['-'] + two_digits(d) + seq!['_'] + two_digits(h)
        + seq!['-'] + two_digits(mi) + seq!['-'] + two_digits(sec));
    lemma_concat_19(
        year,
        two_digits(m),
        two_digits(d),
        two_digits(h),
        two_digits(mi),
        two_digits(sec),
    );
}

/// The calendar count starts at 1970-01-01, and the next day of the same
/// month is one day later.
pub proof fn law_days_from_civil(year: int, month: int, day: int)
    requires
        1 <= month <= 12,
        1 <= day < 28,
    ensures
        days_from_civil(1970, 1, 1) == 0,
        days_from_civil(year, month, day + 1) == days_from_civil(year, month, day) + 1,
{
}

} // verus!
