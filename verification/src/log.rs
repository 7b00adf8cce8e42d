//! Structured log lines in the style node operators know:
//!
//! ```text
//! INFO  [08-19|01:23:45.123] Imported new chain segment    number=1,402,331 hash=9f2c..a1
//! ```

use crate::text;
use vstd::prelude::*;
use vstd::string::*;
use vstd::utf8::*;

verus! {

/// Width messages are padded to.
pub const MSG_WIDTH: usize = 38;

/// How much a line matters.
#[derive(Clone, Copy, PartialEq, Eq, Structural, Debug)]
pub enum Level {
    Info,
    Warn,
    Error,
    Debug,
}

impl Level {
    /// The tag a line starts with.
    pub open spec fn tag_text(self) -> Seq<char> {
        match self {
            Level::Info => "INFO "@,
            Level::Warn => "WARN "@,
            Level::Error => "ERROR"@,
            Level::Debug => "DEBUG"@,
        }
    }

    /// The escape sequence a tag is coloured with.
    pub open spec fn color_text(self) -> Seq<char> {
        match self {
            Level::Info => "\x1b[32m"@,
            Level::Warn => "\x1b[33m"@,
            Level::Error => "\x1b[31m"@,
            Level::Debug => "\x1b[2m"@,
        }
    }

    /// The tag a line starts with.
    pub fn tag(self) -> (r: &'static str)
        ensures
            r@ == self.tag_text(),
    {
        match self {
            Level::Info => "INFO ",
            Level::Warn => "WARN ",
            Level::Error => "ERROR",
            Level::Debug => "DEBUG",
        }
    }

    /// The escape sequence a tag is coloured with.
    pub fn color(self) -> (r: &'static str)
        ensures
            r@ == self.color_text(),
    {
        match self {
            Level::Info => "\x1b[32m",
            Level::Warn => "\x1b[33m",
            Level::Error => "\x1b[31m",
            Level::Debug => "\x1b[2m",
        }
    }
}

// ---------------------------------------------------------------- numbers

/// `k` times a character.
pub open spec fn repeated(c: char, k: nat) -> Seq<char> {
    Seq::new(k, |i: int| c)
}

/// Appends a character `k` times.
pub fn push_repeated(out: &mut String, c: char, k: usize)
    ensures
        final(out)@ == old(out)@ + repeated(c, k as nat),
{
    let ghost start = out@;
    let mut i: usize = 0;
    assert(start + repeated(c, 0) =~= start);
    while i < k
        invariant
            i <= k,
            out@ == start + repeated(c, i as nat),
        decreases k - i,
    {
        out.push(c);
        i = i + 1;
        assert(out@ =~= start + repeated(c, i as nat));
    }
}

/// A number with leading zeros up to a width.
pub open spec fn zero_padded(n: nat, width: nat) -> Seq<char> {
    let d = text::dec(n);
    if d.len() < width {
        repeated('0', (width - d.len()) as nat) + d
    } else {
        d
    }
}

/// Appends a number with leading zeros up to a width.
pub fn push_padded(out: &mut String, n: u64, width: usize)
    ensures
        final(out)@ == old(out)@ + zero_padded(n as nat, width as nat),
{
    let d = text::decimal(n as u128);
    let v = text::chars_of(d.as_str());
    let ghost start = out@;
    if v.len() < width {
        push_repeated(out, '0', width - v.len());
    }
    out.append(d.as_str());
    assert(out@ =~= start + zero_padded(n as nat, width as nat));
}

/// A text with commas between groups of three characters, counted from its end.
pub open spec fn grouped(s: Seq<char>) -> Seq<char>
    decreases s.len(),
{
    if s.len() <= 3 {
        s
    } else {
        grouped(s.take(s.len() - 3)).push(',') + s.skip(s.len() - 3)
    }
}

fn push_grouped(out: &mut String, v: &Vec<char>, n: usize)
    requires
        n <= v@.len(),
    ensures
        final(out)@ == old(out)@ + grouped(v@.take(n as int)),
    decreases n,
{
    let ghost start = out@;
    let ghost s = v@.take(n as int);
    if n <= 3 {
        out.append(text::text_range(v, 0, n).as_str());
        assert(v@.subrange(0, n as int) =~= s);
    } else {
        push_grouped(out, v, n - 3);
        out.push(',');
        out.append(text::text_range(v, n - 3, n).as_str());
        proof {
            assert(s.take(n - 3) =~= v@.take(n - 3));
            assert(s.skip(n - 3) =~= v@.subrange(n - 3, n as int));
        }
    }
    assert(out@ =~= start + grouped(s));
}

/// A number with commas between thousands.
pub fn num(n: u64) -> (r: String)
    ensures
        r@ == grouped(text::dec(n as nat)),
{
    let v = text::chars_of(text::decimal(n as u128).as_str());
    let mut out = String::new();
    push_grouped(&mut out, &v, v.len());
    assert(v@.take(v@.len() as int) =~= v@);
    assert(out@ =~= grouped(v@));
    out
}

/// The number of characters that make up the first `n` bytes of a text, if its bytes can
/// be cut there.
pub open spec fn cut_at(s: Seq<char>, n: nat) -> Option<nat> {
    if exists|k: int| 0 <= k <= s.len() && #[trigger] text::utf8(s.take(k)).len() == n {
        Some(
            (choose|k: int| 0 <= k <= s.len() && #[trigger] text::utf8(s.take(k)).len() == n) as nat,
        )
    } else {
        None
    }
}

/// A text of more than ten bytes as its first eight and its last four.
pub open spec fn shortened(s: Seq<char>) -> Option<Seq<char>> {
    let n = text::utf8(s).len();
    if n <= 10 {
        Some(s)
    } else {
        match (cut_at(s, 8), cut_at(s, (n - 4) as nat)) {
            (Some(a), Some(b)) => Some(s.take(a as int) + ".."@ + s.skip(b as int)),
            _ => None,
        }
    }
}

proof fn lemma_cuts_grow(s: Seq<char>, i: int, j: int)
    requires
        0 <= i < j <= s.len(),
    ensures
        text::utf8(s.take(i)).len() < text::utf8(s.take(j)).len(),
    decreases i,
{
    assert(s.take(j)[0] == s[0]);
    if i == 0 {
        assert(s.take(0) =~= Seq::<char>::empty());
    } else {
        assert(s.take(i)[0] == s[0]);
        let rest = s.drop_first();
        assert(s.take(i).drop_first() =~= rest.take(i - 1));
        assert(s.take(j).drop_first() =~= rest.take(j - 1));
        lemma_cuts_grow(rest, i - 1, j - 1);
    }
}

/// Finds where the bytes of a text can be cut.
fn find_cut(v: &Vec<char>, n: usize) -> (r: Option<usize>)
    ensures
        match r {
            Some(k) => k <= v@.len() && cut_at(v@, n as nat) == Some(k as nat),
            None => cut_at(v@, n as nat) is None,
        },
{
    let ghost s = v@;
    let mut k: usize = 0;
    loop
        invariant
            s == v@,
            k <= s.len(),
            forall|j: int| 0 <= j < k ==> #[trigger] text::utf8(s.take(j)).len() != n,
        decreases s.len() - k,
    {
        let head = text::text_range(v, 0, k);
        assert(s.subrange(0, k as int) =~= s.take(k as int));
        let bytes = text::bytes_of(head.as_str());
        if bytes.len() == n {
            proof {
                let c = choose|j: int|
                    0 <= j <= s.len() && #[trigger] text::utf8(s.take(j)).len() == n;
                assert(text::utf8(s.take(k as int)).len() == n);
                if c < k {
                    lemma_cuts_grow(s, c, k as int);
                } else if c > k {
                    lemma_cuts_grow(s, k as int, c);
                }
            }
            return Some(k);
        }
        if k == v.len() {
            return None;
        }
        k = k + 1;
    }
}

/// The short form of a hash used in every field.
pub fn short(hash: &str) -> (r: String)
    requires
        shortened(hash@) is Some,
    ensures
        shortened(hash@) == Some(r@),
{
    let bytes = text::bytes_of(hash);
    let n: usize = bytes.len();
    if n > 10 {
        let v = text::chars_of(hash);
        match (find_cut(&v, 8), find_cut(&v, n - 4)) {
            (Some(a), Some(b)) => {
                let mut out = text::text_range(&v, 0, a);
                out.append("..");
                out.append(text::text_range(&v, b, v.len()).as_str());
                proof {
                    assert(v@.subrange(0, a as int) =~= v@.take(a as int));
                    assert(v@.subrange(b as int, v@.len() as int) =~= v@.skip(b as int));
                }
                return out;
            },
            _ => {},
        }
    }
    text::copy(hash)
}

/// The bytes of an ASCII text can be cut anywhere, so such a text has a short form.
pub proof fn law_ascii_is_shortened(s: Seq<char>)
    requires
        is_ascii_chars(s),
    ensures
        shortened(s) == Some(
            if s.len() <= 10 {
                s
            } else {
                s.take(8) + ".."@ + s.skip(s.len() - 4)
            },
        ),
{
    lemma_ascii_len(s);
    if s.len() > 10 {
        lemma_ascii_cut(s, 8);
        lemma_ascii_cut(s, (s.len() - 4) as nat);
    }
}

proof fn lemma_ascii_len(s: Seq<char>)
    requires
        is_ascii_chars(s),
    ensures
        text::utf8(s).len() == s.len(),
{
    is_ascii_chars_encode_utf8(s);
}

proof fn lemma_ascii_cut(s: Seq<char>, n: nat)
    requires
        is_ascii_chars(s),
        n <= s.len(),
    ensures
        cut_at(s, n) == Some(n),
{
    lemma_ascii_len(s.take(n as int));
    let c = choose|k: int| 0 <= k <= s.len() && #[trigger] text::utf8(s.take(k)).len() == n;
    assert(text::utf8(s.take(n as int)).len() == n);
    lemma_ascii_len(s.take(c));
}

// ---------------------------------------------------------------- time

/// Leap years of the Gregorian calendar.
pub open spec fn leap(year: nat) -> bool {
    (year % 4 == 0 && year % 100 != 0) || year % 400 == 0
}

/// Days of a year.
pub open spec fn year_days(year: nat) -> nat {
    if leap(year) {
        366
    } else {
        365
    }
}

/// Days of a month, the first being one.
pub open spec fn month_days(year: nat, month: nat) -> nat {
    if month == 2 {
        if leap(year) {
            29
        } else {
            28
        }
    } else if month == 4 || month == 6 || month == 9 || month == 11 {
        30
    } else {
        31
    }
}

/// Days from the start of 1970 to the start of a year.
pub open spec fn days_before_year(year: nat) -> nat
    decreases year,
{
    if year <= 1970 {
        0
    } else {
        days_before_year((year - 1) as nat) + year_days((year - 1) as nat)
    }
}

/// Days from the start of a year to the start of a month.
pub open spec fn days_before_month(year: nat, month: nat) -> nat
    decreases month,
{
    if month <= 1 {
        0
    } else {
        days_before_month(year, (month - 1) as nat) + month_days(year, (month - 1) as nat)
    }
}

/// Whether a day since 1970 is a date.
pub open spec fn is_date(days: nat, year: nat, month: nat, day: nat) -> bool {
    &&& year >= 1970
    &&& 1 <= month <= 12
    &&& 1 <= day <= month_days(year, month)
    &&& days == days_before_year(year) + days_before_month(year, month) + day - 1
}

/// `MM-DD|HH:MM:SS.mmm` of a date and a time of day.
pub open spec fn stamp_text(month: nat, day: nat, secs: nat, ms: nat) -> Seq<char> {
    zero_padded(month, 2) + "-"@ + zero_padded(day, 2) + "|"@ + zero_padded(secs / 3600 % 24, 2)
        + ":"@ + zero_padded(secs / 60 % 60, 2) + ":"@ + zero_padded(secs % 60, 2) + "."@
        + zero_padded(ms, 3)
}

/// Every month of a year fits in it.
proof fn lemma_year_length(year: nat)
    ensures
        days_before_month(year, 13) == year_days(year),
{
    reveal_with_fuel(days_before_month, 14);
}

/// The month and day of a day since 1970.
fn month_and_day(days: u64) -> (r: (u64, u64))
    requires
        days < 0x8000_0000_0000_0000,
    ensures
        exists|year: nat| #[trigger] is_date(days as nat, year, r.0 as nat, r.1 as nat),
{
    let mut left: u64 = days;
    let mut year: u64 = 1970;
    loop
        invariant_except_break
            1970 <= year <= 1970 + days - left,
            left <= days,
            days < 0x8000_0000_0000_0000,
            days == days_before_year(year as nat) + left,
        ensures
            1970 <= year,
            left < year_days(year as nat),
            days == days_before_year(year as nat) + left,
        decreases left,
    {
        let len: u64 = if (year % 4 == 0 && year % 100 != 0) || year % 400 == 0 {
            366
        } else {
            365
        };
        if left < len {
            break;
        }
        left = left - len;
        year = year + 1;
    }
    let ghost y = year as nat;
    let mut month: u64 = 1;
    proof {
        lemma_year_length(y);
    }
    loop
        invariant_except_break
            1 <= month <= 12,
            y == year,
            year >= 1970,
            days_before_month(y, 13) == year_days(y),
            days_before_month(y, month as nat) + left < year_days(y),
            days == days_before_year(y) + days_before_month(y, month as nat) + left,
        ensures
            1 <= month <= 12,
            left < month_days(y, month as nat),
            days == days_before_year(y) + days_before_month(y, month as nat) + left,
        decreases 13 - month,
    {
        let len: u64 = if month == 2 {
            if (year % 4 == 0 && year % 100 != 0) || year % 400 == 0 {
                29
            } else {
                28
            }
        } else if month == 4 || month == 6 || month == 9 || month == 11 {
            30
        } else {
            31
        };
        if left < len {
            break;
        }
        left = left - len;
        month = month + 1;
    }
    let day: u64 = left + 1;
    let r = (month, day);
    assert(is_date(days as nat, y, r.0 as nat, r.1 as nat));
    r
}

/// Days since 1970 of a time in seconds.
pub open spec fn days_of(secs: nat) -> nat {
    secs / 86_400
}

/// A time since 1970 as `MM-DD|HH:MM:SS.mmm` in UTC.
pub fn stamp(secs: u64, ms: u32) -> (r: String)
    ensures
        exists|year: nat, month: nat, day: nat|
            {
                &&& #[trigger] is_date(days_of(secs as nat), year, month, day)
                &&& r@ == stamp_text(month, day, secs as nat, ms as nat)
            },
{
    let (month, day) = month_and_day(secs / 86_400);
    let mut out = String::new();
    push_padded(&mut out, month, 2);
    assert(out@ =~= zero_padded(month as nat, 2));
    out.append("-");
    push_padded(&mut out, day, 2);
    out.append("|");
    push_padded(&mut out, (secs / 3600) % 24, 2);
    out.append(":");
    push_padded(&mut out, (secs / 60) % 60, 2);
    out.append(":");
    push_padded(&mut out, secs % 60, 2);
    out.append(".");
    push_padded(&mut out, ms as u64, 3);
    proof {
        let days = days_of(secs as nat);
        let (m, d) = (month as nat, day as nat);
        let y = choose|y: nat| is_date(days, y, m, d);
        assert(is_date(days, y, m, d));
    }
    out
}

/// A day since 1970 is one date only.
pub proof fn law_dates_are_unique(
    days: nat,
    y: nat,
    m: nat,
    d: nat,
    year: nat,
    month: nat,
    day: nat,
)
    requires
        is_date(days, y, m, d),
        is_date(days, year, month, day),
    ensures
        y == year,
        m == month,
        d == day,
{
    if y < year {
        lemma_dates_grow(y, m, d, year, month, day);
    } else if year < y {
        lemma_dates_grow(year, month, day, y, m, d);
    } else if m < month {
        lemma_months_grow(y, m, month);
    } else if month < m {
        lemma_months_grow(y, month, m);
    }
}

proof fn lemma_months_grow(year: nat, a: nat, b: nat)
    requires
        1 <= a < b,
    ensures
        days_before_month(year, a) + month_days(year, a) <= days_before_month(year, b),
    decreases b,
{
    if a + 1 < b {
        lemma_months_grow(year, a, (b - 1) as nat);
    }
}

proof fn lemma_years_grow(a: nat, b: nat)
    requires
        1970 <= a < b,
    ensures
        days_before_year(a) + year_days(a) <= days_before_year(b),
    decreases b,
{
    if a + 1 < b {
        lemma_years_grow(a, (b - 1) as nat);
    }
}

proof fn lemma_dates_grow(y: nat, m: nat, d: nat, year: nat, month: nat, day: nat)
    requires
        1970 <= y < year,
        1 <= m <= 12,
        1 <= d <= month_days(y, m),
        1 <= day,
    ensures
        days_before_year(y) + days_before_month(y, m) + d - 1 < days_before_year(year)
            + days_before_month(year, month) + day - 1,
{
    lemma_years_grow(y, year);
    lemma_year_length(y);
    lemma_months_grow(y, m, 13);
}

// ---------------------------------------------------------------- lines

/// A field of a line.
pub open spec fn field(kv: (&str, String)) -> Seq<char> {
    kv.0@ + "="@ + kv.1@
}

/// Fields with blanks between them.
pub open spec fn fields(kv: Seq<(&str, String)>) -> Seq<char>
    decreases kv.len(),
{
    if kv.len() == 0 {
        Seq::empty()
    } else if kv.len() == 1 {
        field(kv[0])
    } else {
        fields(kv.drop_last()) + " "@ + field(kv.last())
    }
}

fn join_fields(kv: &[(&str, String)]) -> (r: String)
    ensures
        r@ == fields(kv@),
{
    let mut out = String::new();
    let mut i: usize = 0;
    let n: usize = kv.len();
    assert(kv@.take(0) =~= Seq::<(&str, String)>::empty());
    while i < n
        invariant
            i <= n,
            n == kv@.len(),
            out@ =~= fields(kv@.take(i as int)),
        decreases n - i,
    {
        let ghost was = out@;
        proof {
            assert(kv@.take(i + 1).drop_last() =~= kv@.take(i as int));
            assert(kv@.take(i + 1).last() == kv@[i as int]);
        }
        if i > 0 {
            out.append(" ");
        }
        out.append(kv[i].0);
        out.append("=");
        out.append(kv[i].1.as_str());
        proof {
            if i == 0 {
                assert(kv@.take(1)[0] == kv@[0]);
                assert(out@ =~= field(kv@[0]));
            } else {
                assert(out@ =~= was + " "@ + field(kv@[i as int]));
            }
        }
        i = i + 1;
    }
    assert(kv@.take(n as int) =~= kv@);
    out
}

/// A message padded with blanks.
pub open spec fn padded(s: Seq<char>, width: nat) -> Seq<char> {
    if s.len() < width {
        s + repeated(' ', (width - s.len()) as nat)
    } else {
        s
    }
}

/// Appends a message padded with blanks.
pub fn push_padded_text(out: &mut String, s: &str, width: usize)
    ensures
        final(out)@ == old(out)@ + padded(s@, width as nat),
{
    let ghost start = out@;
    let v = text::chars_of(s);
    out.append(s);
    if v.len() < width {
        push_repeated(out, ' ', width - v.len());
    }
    assert(out@ =~= start + padded(s@, width as nat));
}

/// A log line, coloured or plain, without blanks at its end.
pub open spec fn line_text(
    level: Level,
    stamp: Seq<char>,
    msg: Seq<char>,
    kv: Seq<(&str, String)>,
    plain: bool,
) -> Seq<char> {
    let body = if plain {
        level.tag_text() + " ["@ + stamp + "] "@ + padded(msg, MSG_WIDTH as nat) + " "@ + fields(kv)
    } else {
        level.color_text() + level.tag_text() + "\x1b[0m \x1b[2m["@ + stamp + "]\x1b[0m "@ + padded(
            msg,
            MSG_WIDTH as nat,
        ) + " \x1b[2m"@ + fields(kv) + "\x1b[0m"@
    };
    text::trim_end(body)
}

fn strip_blanks(s: &str) -> (r: String)
    ensures
        r@ == text::trim_end(s@),
{
    let v = text::chars_of(s);
    let mut n: usize = v.len();
    assert(v@.take(n as int) =~= s@);
    while n > 0 && text::is_space_exec(v[n - 1])
        invariant
            n <= v@.len(),
            text::trim_end(s@) == text::trim_end(v@.take(n as int)),
        decreases n,
    {
        proof {
            assert(v@.take(n as int).drop_last() =~= v@.take(n - 1));
        }
        n = n - 1;
    }
    assert(v@.subrange(0, n as int) =~= v@.take(n as int));
    text::text_range(&v, 0, n)
}

/// Writes a log line.
pub fn line(level: Level, stamp: &str, msg: &str, kv: &[(&str, String)], plain: bool) -> (r: String)
    ensures
        r@ == line_text(level, stamp@, msg@, kv@, plain),
{
    let mut out = String::new();
    let joined = join_fields(kv);
    if plain {
        out.append(level.tag());
        out.append(" [");
        out.append(stamp);
        out.append("] ");
        push_padded_text(&mut out, msg, MSG_WIDTH);
        out.append(" ");
        out.append(joined.as_str());
        assert(out@ =~= level.tag_text() + " ["@ + stamp@ + "] "@ + padded(
            msg@,
            MSG_WIDTH as nat,
        ) + " "@ + fields(kv@));
    } else {
        out.append(level.color());
        out.append(level.tag());
        out.append("\x1b[0m \x1b[2m[");
        out.append(stamp);
        out.append("]\x1b[0m ");
        push_padded_text(&mut out, msg, MSG_WIDTH);
        out.append(" \x1b[2m");
        out.append(joined.as_str());
        out.append("\x1b[0m");
        assert(out@ =~= level.color_text() + level.tag_text() + "\x1b[0m \x1b[2m["@ + stamp@
            + "]\x1b[0m "@ + padded(msg@, MSG_WIDTH as nat) + " \x1b[2m"@ + fields(kv@)
            + "\x1b[0m"@);
    }
    strip_blanks(out.as_str())
}

} // verus!
