//! Daily notes: where a day's note lives, per vault.
//!
//! The date format is Obsidian's, which is Moment.js's, because that is what an imported
//! `daily-notes.json` holds.
use vstd::prelude::*;
use vstd::arithmetic::div_mod::{lemma_fundamental_div_mod, lemma_fundamental_div_mod_converse, lemma_mod_pos_bound};
use crate::numfmt::{div_floor, fmt_i64, fmt_int, fmt_u64};
use crate::json::{get_str, json_document, json_get, json_str, parse_json, Json};
use crate::text::{ends_with, ends_with_exec};
use crate::text::{append, chars_of, concat, eq, find, find_exec, is_ascii_digit, lemma_find, slice, split, split_exec, starts_with, starts_with_exec, string_of, strip_set, strip_set_exec, trim, trim_exec};

verus! {

broadcast use vstd::seq_lib::group_seq_properties;

pub const DEFAULT_FOLDER: &'static str = "Daily";

pub const DEFAULT_FORMAT: &'static str = "YYYY-MM-DD";

pub const DEFAULT_TEMPLATE: &'static str = "Templates/Daily.md";

/// Where daily notes go and what they are called. An empty field means the default.
#[derive(Debug, Clone, PartialEq, Eq)]
pub struct DailySettings {
    /// Folder new daily notes go into ("" = the default, `Daily`; "/" = the vault root).
    pub folder: String,
    /// Moment.js-style date format for the file name, which may itself contain `/`.
    pub format: String,
    /// Template applied when the note is created, vault-relative.
    pub template: String,
}

impl Default for DailySettings {
    fn default() -> (r: DailySettings)
        ensures
            r.folder@.len() == 0 && r.format@.len() == 0 && r.template@.len() == 0,
    {
        DailySettings { folder: String::new(), format: String::new(), template: String::new() }
    }
}

pub open spec fn default_folder() -> Seq<char> {
    seq!['D', 'a', 'i', 'l', 'y']
}

pub open spec fn default_format() -> Seq<char> {
    seq!['Y', 'Y', 'Y', 'Y', '-', 'M', 'M', '-', 'D', 'D']
}

pub open spec fn default_template() -> Seq<char> {
    seq!['T', 'e', 'm', 'p', 'l', 'a', 't', 'e', 's', '/', 'D', 'a', 'i', 'l', 'y', '.', 'm', 'd']
}

/// The folder daily notes go into: trimmed of spaces and slashes, `Daily` when empty, and the
/// root (empty) when the setting is exactly `/`.
pub open spec fn folder_spec(f: Seq<char>) -> Seq<char> {
    let t = strip_set(trim(f), seq!['/']);
    if t.len() == 0 {
        if trim(f) == seq!['/'] {
            Seq::empty()
        } else {
            default_folder()
        }
    } else {
        t
    }
}

/// The trimmed setting, or `default` when it is empty.
pub open spec fn or_default(s: Seq<char>, default: Seq<char>) -> Seq<char> {
    if trim(s).len() == 0 {
        default
    } else {
        trim(s)
    }
}

/// The path of the daily note for `date`.
pub open spec fn path_for_spec(s: DailySettings, date: Date) -> Seq<char> {
    let name = format_date_spec(or_default(s.format@, default_format()), date);
    let f = folder_spec(s.folder@);
    if f.len() == 0 {
        name + seq!['.', 'm', 'd']
    } else {
        f + seq!['/'] + name + seq!['.', 'm', 'd']
    }
}

fn lit(s: &str) -> (r: Vec<char>)
    ensures
        r@ == s@,
{
    chars_of(s)
}

impl DailySettings {
    pub fn folder(&self) -> (r: String)
        ensures
            r@ == folder_spec(self.folder@),
    {
        let f = chars_of(self.folder.as_str());
        let tf = trim_exec(&f);
        let slash = vec!['/'];
        proof {
            assert(slash@ =~= seq!['/']);
        }
        let t = strip_set_exec(&tf, &slash);
        if t.len() == 0 {
            if eq(&tf, &slash) {
                String::new()
            } else {
                let d = lit("Daily");
                proof {
                    reveal_strlit("Daily");
                    assert(d@ =~= default_folder());
                }
                string_of(&d)
            }
        } else {
            string_of(&t)
        }
    }

    pub fn format(&self) -> (r: String)
        ensures
            r@ == or_default(self.format@, default_format()),
    {
        let t = trim_exec(&chars_of(self.format.as_str()));
        if t.len() == 0 {
            let d = lit("YYYY-MM-DD");
            proof {
                reveal_strlit("YYYY-MM-DD");
                assert(d@ =~= default_format());
            }
            string_of(&d)
        } else {
            string_of(&t)
        }
    }

    pub fn template(&self) -> (r: String)
        ensures
            r@ == or_default(self.template@, default_template()),
    {
        let t = trim_exec(&chars_of(self.template.as_str()));
        if t.len() == 0 {
            let d = lit("Templates/Daily.md");
            proof {
                reveal_strlit("Templates/Daily.md");
                assert(d@ =~= default_template());
            }
            string_of(&d)
        } else {
            string_of(&t)
        }
    }

    /// The vault-relative path of the note for `date`.
    pub fn path_for(&self, date: Date) -> (r: String)
        requires
            date.valid(),
        ensures
            r@ == path_for_spec(*self, date),
    {
        let fmt = self.format();
        let name = format_date_chars(&chars_of(fmt.as_str()), date);
        let f = self.folder();
        let fc = chars_of(f.as_str());
        let ext = vec!['.', 'm', 'd'];
        proof {
            assert(ext@ =~= seq!['.', 'm', 'd']);
        }
        if fc.len() == 0 {
            string_of(&concat(&name, &ext))
        } else {
            let mut out = fc;
            out.push('/');
            append(&mut out, &name);
            append(&mut out, &ext);
            string_of(&out)
        }
    }
}

/// A calendar date (proleptic Gregorian).
#[derive(Debug, Clone, Copy, PartialEq, Eq, PartialOrd, Ord, Structural)]
pub struct Date {
    pub year: i32,
    pub month: u32,
    pub day: u32,
}

pub open spec fn is_leap(year: int) -> bool {
    (year % 4 == 0 && year % 100 != 0) || year % 400 == 0
}

pub open spec fn days_in_month_spec(year: int, month: int) -> int {
    if month == 4 || month == 6 || month == 9 || month == 11 {
        30
    } else if month == 2 {
        if is_leap(year) {
            29
        } else {
            28
        }
    } else {
        31
    }
}

/// `+` then digits, or digits, as `str::parse::<u32>` takes them, for at most 4 characters.
pub open spec fn parse_digits(s: Seq<char>) -> Option<int>
    decreases s.len(),
{
    if s.len() == 0 {
        None
    } else if !is_ascii_digit(s.last()) {
        None
    } else if s.len() == 1 {
        Some(s.last() as int - 48)
    } else {
        match parse_digits(s.drop_last()) {
            Some(v) => Some(v * 10 + (s.last() as int - 48)),
            None => None,
        }
    }
}

pub open spec fn parse_num(s: Seq<char>) -> Option<int> {
    if s.len() > 0 && s[0] == '+' {
        parse_digits(s.drop_first())
    } else {
        parse_digits(s)
    }
}

/// `YYYY-MM-DD`, validated: three parts of 4, 2 and 2 characters that parse as numbers and name
/// a real date.
pub open spec fn parse_date(s: Seq<char>) -> Option<Date> {
    let parts = split(s, '-');
    if parts.len() != 3 || parts[0].len() != 4 || parts[1].len() != 2 || parts[2].len() != 2 {
        None
    } else {
        match (parse_num(parts[0]), parse_num(parts[1]), parse_num(parts[2])) {
            (Some(y), Some(m), Some(d)) => {
                let date = Date { year: y as i32, month: m as u32, day: d as u32 };
                if date.valid() {
                    Some(date)
                } else {
                    None
                }
            },
            _ => None,
        }
    }
}

/// Day number of a date counted from 1970-01-01 (Howard Hinnant's `days_from_civil`).
pub open spec fn days_spec(d: Date) -> int {
    let y = d.year as int - if d.month <= 2 {
        1int
    } else {
        0int
    };
    let era = y / 400;
    let yoe = y - era * 400;
    let m = d.month as int;
    let doy = (153 * (m + if m > 2 {
        -3int
    } else {
        9int
    }) + 2) / 5 + d.day as int - 1;
    let doe = yoe * 365 + yoe / 4 - yoe / 100 + doy;
    era * 146097 + doe - 719468
}

/// The date of a day number (`civil_from_days`); the year wraps as the cast to `i32` does.
pub open spec fn from_days_spec(z: int) -> Date {
    let z = z + 719468;
    let era = z / 146097;
    let doe = z - era * 146097;
    let yoe = (doe - doe / 1460 + doe / 36524 - doe / 146096) / 365;
    let doy = doe - (365 * yoe + yoe / 4 - yoe / 100);
    let mp = (5 * doy + 2) / 153;
    let day = doy - (153 * mp + 2) / 5 + 1;
    let month = if mp < 10 {
        mp + 3
    } else {
        mp - 9
    };
    let year = yoe + era * 400 + if month <= 2 {
        1int
    } else {
        0int
    };
    Date { year: year as i32, month: month as u32, day: day as u32 }
}

/// 0 = Sunday … 6 = Saturday.
pub open spec fn weekday_spec(d: Date) -> int {
    (days_spec(d) + 4) % 7
}

/// 1-based day of the year.
pub open spec fn ordinal_spec(d: Date) -> int {
    days_spec(d) - days_spec(Date { year: d.year, month: 1, day: 1 }) + 1
}

/// ISO 8601 week-numbering year and week: those of the Thursday of the date's Monday week.
pub open spec fn iso_week_spec(d: Date) -> (int, int) {
    let iso_wd = (weekday_spec(d) + 6) % 7;
    let thursday = from_days_spec(days_spec(d) + 3 - iso_wd);
    (thursday.year as int, (ordinal_spec(thursday) - 1) / 7 + 1)
}

/// Moment's `en` locale week: weeks start on Sunday and week 1 holds 1 January.
pub open spec fn locale_week_spec(d: Date) -> (int, int) {
    let saturday = from_days_spec(days_spec(d) + 6 - weekday_spec(d));
    (saturday.year as int, (ordinal_spec(saturday) - 1) / 7 + 1)
}

/// `YYYY-MM-DD`, zero-padded.
pub open spec fn iso_spec(d: Date) -> Seq<char> {
    fmt_int(d.year as int, 4) + seq!['-'] + fmt_int(d.month as int, 2) + seq!['-'] + fmt_int(d.day as int, 2)
}

/// Ten to the `k`.
pub open spec fn ten_pow(k: nat) -> int
    decreases k,
{
    if k == 0 {
        1
    } else {
        10 * ten_pow((k - 1) as nat)
    }
}

/// Every character is an ASCII digit.
pub open spec fn all_digits(s: Seq<char>) -> bool {
    forall|i: int| 0 <= i < s.len() ==> is_ascii_digit(#[trigger] s[i])
}

/// Text of the shape `YYYY-MM-DD`: four digits, a dash, two digits, a dash, two digits.
pub open spec fn iso_shaped(s: Seq<char>) -> bool {
    &&& s.len() == 10
    &&& s[4] == '-' && s[7] == '-'
    &&& all_digits(s.subrange(0, 4)) && all_digits(s.subrange(5, 7)) && all_digits(s.subrange(8, 10))
}

proof fn lemma_split_single(a: Seq<char>, c: char)
    requires
        forall|i: int| 0 <= i < a.len() ==> a[i] != c,
    ensures
        split(a, c) == seq![a],
    decreases a.len(),
{
    if a.len() > 0 {
        lemma_split_single(a.drop_last(), c);
        assert(a.drop_last().push(a.last()) =~= a);
        assert(seq![a.drop_last()].update(0, a) =~= seq![a]);
    } else {
        assert(a =~= Seq::<char>::empty());
    }
}

proof fn lemma_split_after(x: Seq<char>, y: Seq<char>, c: char)
    requires
        forall|i: int| 0 <= i < y.len() ==> y[i] != c,
    ensures
        split(x + seq![c] + y, c) == split(x, c).push(y),
    decreases y.len(),
{
    if y.len() == 0 {
        assert((x + seq![c] + y).drop_last() =~= x);
        assert(y =~= Seq::<char>::empty());
    } else {
        lemma_split_after(x, y.drop_last(), c);
        assert((x + seq![c] + y).drop_last() =~= x + seq![c] + y.drop_last());
        let r = split(x, c).push(y.drop_last());
        assert(y.drop_last().push(y.last()) =~= y);
        assert(r.update(r.len() - 1, r.last().push(y.last())) =~= split(x, c).push(y));
    }
}

proof fn lemma_digits_padded(t: Seq<char>)
    requires
        t.len() >= 1,
        all_digits(t),
    ensures
        parse_digits(t) matches Some(v) && 0 <= v < ten_pow(t.len()) && crate::numfmt::zero_pad(
            crate::numfmt::dec(v as nat),
            t.len() as int,
        ) == t,
    decreases t.len(),
{
    let c = t.last();
    assert(is_ascii_digit(t[t.len() - 1]));
    let d = c as int - 48;
    assert(crate::numfmt::digit_char(d) == c);
    if t.len() == 1 {
        assert(ten_pow(1) == 10) by {
            reveal_with_fuel(ten_pow, 2);
        }
        assert(crate::numfmt::dec(d as nat) =~= seq![c]);
        assert(t =~= seq![c]);
    } else {
        let t1 = t.drop_last();
        assert forall|i: int| 0 <= i < t1.len() implies is_ascii_digit(#[trigger] t1[i]) by {
            assert(t1[i] == t[i]);
        }
        lemma_digits_padded(t1);
        let v1 = parse_digits(t1)->Some_0;
        let v = v1 * 10 + d;
        assert(parse_digits(t) == Some(v));
        let k = t.len();
        assert(ten_pow(k) == 10 * ten_pow((k - 1) as nat));
        assert(v < ten_pow(k)) by (nonlinear_arith)
            requires
                0 <= v1 < ten_pow((k - 1) as nat),
                0 <= d < 10,
                v == v1 * 10 + d,
                ten_pow(k) == 10 * ten_pow((k - 1) as nat),
        ;
        let z1 = crate::numfmt::zero_pad(crate::numfmt::dec(v1 as nat), (k - 1) as int);
        if v1 == 0 {
            assert(crate::numfmt::dec(v as nat) =~= seq![c]);
            assert(crate::numfmt::dec(0) =~= seq!['0']);
            assert(crate::numfmt::digit_char(0) == '0');
            assert forall|i: int| 0 <= i < t1.len() implies t1[i] == '0' by {
                if t1.len() > 1 {
                    assert(z1 =~= Seq::new((k - 2) as nat, |j: int| '0') + seq!['0']);
                    assert(z1[i] == '0');
                } else {
                    assert(z1 =~= seq!['0']);
                }
            }
            let zs = Seq::new((k - 1) as nat, |j: int| '0') + seq![c];
            assert(crate::numfmt::zero_pad(seq![c], k as int) == zs);
            assert forall|i: int| 0 <= i < k implies zs[i] == t[i] by {
                if i < k - 1 {
                    assert(t1[i] == '0');
                    assert(t[i] == t1[i]);
                }
            }
            assert(zs =~= t);
        } else {
            assert(v / 10 == v1 && v % 10 == d) by {
                lemma_fundamental_div_mod_converse(v, 10, v1, d);
            }
            let e1 = crate::numfmt::dec(v1 as nat);
            assert(crate::numfmt::dec(v as nat) == e1.push(c));
            if e1.len() >= k - 1 {
                assert(e1 == t1);
                assert(e1.push(c) =~= t);
            } else {
                assert(crate::numfmt::zero_pad(e1.push(c), k as int) =~= Seq::new(
                    (k - 1 - e1.len()) as nat,
                    |j: int| '0',
                ) + e1 + seq![c]);
                assert(Seq::new((k - 1 - e1.len()) as nat, |j: int| '0') + e1 + seq![c] =~= t1.push(c));
                assert(t1.push(c) =~= t);
            }
        }
    }
}

/// Reading a date of the shape `YYYY-MM-DD` and writing it back gives the same text.
pub proof fn lemma_iso_inverts_parse(s: Seq<char>)
    requires
        iso_shaped(s),
        parse_date(s) is Some,
    ensures
        iso_spec(parse_date(s)->Some_0) == s,
{
    let a = s.subrange(0, 4);
    let b = s.subrange(5, 7);
    let c = s.subrange(8, 10);
    assert(s =~= a + seq!['-'] + b + seq!['-'] + c);
    assert forall|i: int| 0 <= i < a.len() implies a[i] != '-' by {
        assert(is_ascii_digit(a[i]));
    }
    assert forall|i: int| 0 <= i < b.len() implies b[i] != '-' by {
        assert(is_ascii_digit(b[i]));
    }
    assert forall|i: int| 0 <= i < c.len() implies c[i] != '-' by {
        assert(is_ascii_digit(c[i]));
    }
    lemma_split_single(a, '-');
    lemma_split_after(a, b, '-');
    lemma_split_after(a + seq!['-'] + b, c, '-');
    assert(split(s, '-') =~= seq![a, b, c]);
    lemma_digits_padded(a);
    lemma_digits_padded(b);
    lemma_digits_padded(c);
    assert(is_ascii_digit(a[0]) && is_ascii_digit(b[0]) && is_ascii_digit(c[0]));
    assert(ten_pow(4) == 10000 && ten_pow(2) == 100) by {
        reveal_with_fuel(ten_pow, 5);
    }
    let y = parse_digits(a)->Some_0;
    let m = parse_digits(b)->Some_0;
    let dd = parse_digits(c)->Some_0;
    let date = parse_date(s)->Some_0;
    assert(date.year as int == y);
    assert(date.month as int == m);
    assert(date.day as int == dd);
    assert(iso_spec(date) =~= a + seq!['-'] + b + seq!['-'] + c);
}

impl Date {
    pub open spec fn valid(self) -> bool {
        1 <= self.month <= 12 && 1 <= self.day <= days_in_month_spec(self.year as int, self.month as int)
    }

    /// `YYYY-MM-DD`, validated.
    pub fn parse(s: &str) -> (r: Option<Date>)
        ensures
            r == parse_date(s@),
    {
        let c = chars_of(s);
        let parts = split_exec(&c, '-');
        if parts.len() != 3 || parts[0].len() != 4 || parts[1].len() != 2 || parts[2].len() != 2 {
            return None;
        }
        let y = match parse_num_exec(&parts[0]) {
            Some(v) => v,
            None => return None,
        };
        let m = match parse_num_exec(&parts[1]) {
            Some(v) => v,
            None => return None,
        };
        let d = match parse_num_exec(&parts[2]) {
            Some(v) => v,
            None => return None,
        };
        let date = Date { year: y as i32, month: m as u32, day: d as u32 };
        if date.month >= 1 && date.month <= 12 && date.day >= 1 && date.day <= days_in_month(
            date.year,
            date.month,
        ) {
            Some(date)
        } else {
            None
        }
    }

    /// `YYYY-MM-DD`, zero-padded.
    pub fn iso(self) -> (r: String)
        ensures
            r@ == iso_spec(self),
    {
        let mut out = fmt_i64(self.year as i64, 4);
        out.push('-');
        append(&mut out, &fmt_i64(self.month as i64, 2));
        out.push('-');
        append(&mut out, &fmt_i64(self.day as i64, 2));
        string_of(&out)
    }

    /// Days since 1970-01-01.
    pub fn days(self) -> (r: i64)
        ensures
            r == days_spec(self),
    {
        let y: i64 = self.year as i64 - if self.month <= 2 {
            1
        } else {
            0
        };
        let era = div_floor(y, 400);
        let yoe = y - era * 400;
        let m = self.month as i64;
        let k: i64 = if m > 2 {
            m - 3
        } else {
            m + 9
        };
        let doy = div_floor(153 * k + 2, 5) + self.day as i64 - 1;
        let doe = yoe * 365 + div_floor(yoe, 4) - div_floor(yoe, 100) + doy;
        era * 146097 + doe - 719468
    }

    /// The date `z` days after 1970-01-01.
    pub fn from_days(z: i64) -> (r: Date)
        requires
            z <= i64::MAX - 719468,
        ensures
            r == from_days_spec(z as int),
    {
        let z = z + 719468;
        let era = div_floor(z, 146097);
        let doe = z - era * 146097;
        let yoe = div_floor(doe - div_floor(doe, 1460) + div_floor(doe, 36524) - div_floor(doe, 146096), 365);
        let doy = doe - (365 * yoe + div_floor(yoe, 4) - div_floor(yoe, 100));
        let mp = div_floor(5 * doy + 2, 153);
        let day = doy - div_floor(153 * mp + 2, 5) + 1;
        let month = if mp < 10 {
            mp + 3
        } else {
            mp - 9
        };
        let year = yoe + era * 400 + if month <= 2 {
            1
        } else {
            0
        };
        Date { year: year as i32, month: month as u32, day: day as u32 }
    }

    pub fn add_days(self, n: i64) -> (r: Date)
        requires
            -1_000_000_000 <= n <= 1_000_000_000,
        ensures
            r == from_days_spec(days_spec(self) + n),
    {
        let d = self.days();
        Date::from_days(d + n)
    }

    /// 0 = Sunday … 6 = Saturday.
    pub fn weekday(self) -> (r: u32)
        ensures
            r == weekday_spec(self),
    {
        let d = self.days() + 4;
        let q = div_floor(d, 7);
        (d - q * 7) as u32
    }
}

fn days_in_month(year: i32, month: u32) -> (r: u32)
    ensures
        r == days_in_month_spec(year as int, month as int),
{
    if month == 4 || month == 6 || month == 9 || month == 11 {
        30
    } else if month == 2 {
        if is_leap_exec(year) {
            29
        } else {
            28
        }
    } else {
        31
    }
}

fn is_leap_exec(year: i32) -> (r: bool)
    ensures
        r == is_leap(year as int),
{
    let y = year as i64;
    let m4 = y - div_floor(y, 4) * 4;
    let m100 = y - div_floor(y, 100) * 100;
    let m400 = y - div_floor(y, 400) * 400;
    (m4 == 0 && m100 != 0) || m400 == 0
}

fn parse_digits_exec(s: &[char]) -> (r: Option<u32>)
    requires
        s.len() <= 4,
    ensures
        match r {
            Some(v) => parse_digits(s@) == Some(v as int) && v < 10000,
            None => parse_digits(s@) is None,
        },
{
    if s.len() == 0 {
        return None;
    }
    let mut v: u32 = 0;
    let mut i: usize = 0;
    while i < s.len()
        invariant
            i <= s.len() <= 4,
            i == 0 ==> v == 0,
            i == 1 ==> v < 10,
            i == 2 ==> v < 100,
            i == 3 ==> v < 1000,
            i == 4 ==> v < 10000,
            i > 0 ==> parse_digits(s@.take(i as int)) == Some(v as int),
        decreases s.len() - i,
    {
        proof {
            assert(s@.take(i + 1).drop_last() =~= s@.take(i as int));
        }
        let c = s[i];
        if !('0' <= c && c <= '9') {
            proof {
                lemma_parse_digits_bad(s@, i as int);
            }
            return None;
        }
        let dgt = (c as u32) - 48;
        v = v * 10 + dgt;
        i += 1;
    }
    proof {
        assert(s@.take(s.len() as int) =~= s@);
    }
    Some(v)
}

proof fn lemma_parse_digits_bad(s: Seq<char>, i: int)
    requires
        0 <= i < s.len(),
        !is_ascii_digit(s[i]),
    ensures
        parse_digits(s) is None,
    decreases s.len(),
{
    if i < s.len() - 1 {
        lemma_parse_digits_bad(s.drop_last(), i);
    }
}

fn parse_num_exec(s: &[char]) -> (r: Option<u32>)
    requires
        s.len() <= 4,
    ensures
        match r {
            Some(v) => parse_num(s@) == Some(v as int) && v < 10000,
            None => parse_num(s@) is None,
        },
{
    if s.len() > 0 && s[0] == '+' {
        let rest = slice(s, 1, s.len());
        proof {
            assert(rest@ =~= s@.drop_first());
        }
        parse_digits_exec(&rest)
    } else {
        parse_digits_exec(s)
    }
}

/// Moment's tokens, longest first so that `MMMM` wins over `MM`.
pub open spec fn tokens() -> Seq<Seq<char>> {
    seq![
        seq!['Y', 'Y', 'Y', 'Y'],
        seq!['G', 'G', 'G', 'G'],
        seq!['g', 'g', 'g', 'g'],
        seq!['M', 'M', 'M', 'M'],
        seq!['D', 'D', 'D', 'D'],
        seq!['d', 'd', 'd', 'd'],
        seq!['M', 'M', 'M'],
        seq!['D', 'D', 'D'],
        seq!['d', 'd', 'd'],
        seq!['Y', 'Y'],
        seq!['G', 'G'],
        seq!['g', 'g'],
        seq!['M', 'M'],
        seq!['D', 'D'],
        seq!['D', 'o'],
        seq!['d', 'd'],
        seq!['W', 'W'],
        seq!['w', 'w'],
        seq!['Q'],
        seq!['M'],
        seq!['D'],
        seq!['d'],
        seq!['E'],
        seq!['e'],
        seq!['W'],
        seq!['w'],
    ]
}

/// The index of the first token (in [`tokens`] order, from `k` on) that `rest` starts with.
pub open spec fn first_token(rest: Seq<char>, k: int) -> Option<int>
    decreases 26 - k,
{
    if k < 0 || k >= 26 {
        None
    } else if starts_with(rest, tokens()[k]) {
        Some(k)
    } else {
        first_token(rest, k + 1)
    }
}

pub open spec fn month_names() -> Seq<Seq<char>> {
    seq![
        seq!['J', 'a', 'n', 'u', 'a', 'r', 'y'],
        seq!['F', 'e', 'b', 'r', 'u', 'a', 'r', 'y'],
        seq!['M', 'a', 'r', 'c', 'h'],
        seq!['A', 'p', 'r', 'i', 'l'],
        seq!['M', 'a', 'y'],
        seq!['J', 'u', 'n', 'e'],
        seq!['J', 'u', 'l', 'y'],
        seq!['A', 'u', 'g', 'u', 's', 't'],
        seq!['S', 'e', 'p', 't', 'e', 'm', 'b', 'e', 'r'],
        seq!['O', 'c', 't', 'o', 'b', 'e', 'r'],
        seq!['N', 'o', 'v', 'e', 'm', 'b', 'e', 'r'],
        seq!['D', 'e', 'c', 'e', 'm', 'b', 'e', 'r'],
    ]
}

pub open spec fn weekday_names() -> Seq<Seq<char>> {
    seq![
        seq!['S', 'u', 'n', 'd', 'a', 'y'],
        seq!['M', 'o', 'n', 'd', 'a', 'y'],
        seq!['T', 'u', 'e', 's', 'd', 'a', 'y'],
        seq!['W', 'e', 'd', 'n', 'e', 's', 'd', 'a', 'y'],
        seq!['T', 'h', 'u', 'r', 's', 'd', 'a', 'y'],
        seq!['F', 'r', 'i', 'd', 'a', 'y'],
        seq!['S', 'a', 't', 'u', 'r', 'd', 'a', 'y'],
    ]
}

/// English ordinal suffix of a day of the month.
pub open spec fn ordinal_suffix(day: int) -> Seq<char> {
    if 11 <= day % 100 <= 13 {
        seq!['t', 'h']
    } else if day % 10 == 1 {
        seq!['s', 't']
    } else if day % 10 == 2 {
        seq!['n', 'd']
    } else if day % 10 == 3 {
        seq!['r', 'd']
    } else {
        seq!['t', 'h']
    }
}

/// What token number `k` writes for `d`.
#[verifier::opaque]
pub open spec fn token_text(k: int, d: Date) -> Seq<char> {
    let month = month_names()[d.month as int - 1];
    let weekday = weekday_names()[weekday_spec(d)];
    if k == 0 {
        fmt_int(d.year as int, 4)
    } else if k == 1 {
        fmt_int(iso_week_spec(d).0, 4)
    } else if k == 2 {
        fmt_int(locale_week_spec(d).0, 4)
    } else if k == 3 {
        month
    } else if k == 4 {
        fmt_int(ordinal_spec(d), 3)
    } else if k == 5 {
        weekday
    } else if k == 6 {
        month.take(3)
    } else if k == 7 {
        fmt_int(ordinal_spec(d), 0)
    } else if k == 8 {
        weekday.take(3)
    } else if k == 9 {
        fmt_int(d.year as int % 100, 2)
    } else if k == 10 {
        fmt_int(iso_week_spec(d).0 % 100, 2)
    } else if k == 11 {
        fmt_int(locale_week_spec(d).0 % 100, 2)
    } else if k == 12 {
        fmt_int(d.month as int, 2)
    } else if k == 13 {
        fmt_int(d.day as int, 2)
    } else if k == 14 {
        fmt_int(d.day as int, 0) + ordinal_suffix(d.day as int)
    } else if k == 15 {
        weekday.take(2)
    } else if k == 16 {
        fmt_int(iso_week_spec(d).1, 2)
    } else if k == 17 {
        fmt_int(locale_week_spec(d).1, 2)
    } else if k == 18 {
        fmt_int((d.month as int - 1) / 3 + 1, 0)
    } else if k == 19 {
        fmt_int(d.month as int, 0)
    } else if k == 20 {
        fmt_int(d.day as int, 0)
    } else if k == 21 || k == 23 {
        fmt_int(weekday_spec(d), 0)
    } else if k == 22 {
        fmt_int((weekday_spec(d) + 6) % 7 + 1, 0)
    } else if k == 24 {
        fmt_int(iso_week_spec(d).1, 0)
    } else {
        fmt_int(locale_week_spec(d).1, 0)
    }
}

/// A Moment.js format applied to a date: tokens replaced, `[…]` copied without its brackets, and
/// anything else copied through. An unterminated `[` is an ordinary character.
pub open spec fn format_date_spec(rest: Seq<char>, d: Date) -> Seq<char>
    decreases rest.len(),
{
    if rest.len() == 0 {
        Seq::empty()
    } else {
        let close = find(rest.drop_first(), seq![']']);
        if rest[0] == '[' && close is Some && 0 <= close->0 && close->0 + 2 <= rest.len() {
            let e = close->0;
            rest.subrange(1, 1 + e) + format_date_spec(rest.skip(e + 2), d)
        } else {
            match first_token(rest, 0) {
                Some(k) => if 0 <= k < 26 && 0 < tokens()[k].len() <= rest.len() {
                    token_text(k, d) + format_date_spec(rest.skip(tokens()[k].len() as int), d)
                } else {
                    Seq::empty()
                },
                None => seq![rest[0]] + format_date_spec(rest.drop_first(), d),
            }
        }
    }
}

fn token_list() -> (r: Vec<Vec<char>>)
    ensures
        r@.len() == tokens().len(),
        forall|k: int| 0 <= k < r@.len() ==> #[trigger] r@[k]@ == tokens()[k],
{
    let r = vec![
        vec!['Y', 'Y', 'Y', 'Y'],
        vec!['G', 'G', 'G', 'G'],
        vec!['g', 'g', 'g', 'g'],
        vec!['M', 'M', 'M', 'M'],
        vec!['D', 'D', 'D', 'D'],
        vec!['d', 'd', 'd', 'd'],
        vec!['M', 'M', 'M'],
        vec!['D', 'D', 'D'],
        vec!['d', 'd', 'd'],
        vec!['Y', 'Y'],
        vec!['G', 'G'],
        vec!['g', 'g'],
        vec!['M', 'M'],
        vec!['D', 'D'],
        vec!['D', 'o'],
        vec!['d', 'd'],
        vec!['W', 'W'],
        vec!['w', 'w'],
        vec!['Q'],
        vec!['M'],
        vec!['D'],
        vec!['d'],
        vec!['E'],
        vec!['e'],
        vec!['W'],
        vec!['w'],
    ];
    proof {
        assert(r@.len() == 26);
        assert(tokens().len() == 26);
        assert(r@[0]@ =~= tokens()[0]);
        assert(r@[1]@ =~= tokens()[1]);
        assert(r@[2]@ =~= tokens()[2]);
        assert(r@[3]@ =~= tokens()[3]);
        assert(r@[4]@ =~= tokens()[4]);
        assert(r@[5]@ =~= tokens()[5]);
        assert(r@[6]@ =~= tokens()[6]);
        assert(r@[7]@ =~= tokens()[7]);
        assert(r@[8]@ =~= tokens()[8]);
        assert(r@[9]@ =~= tokens()[9]);
        assert(r@[10]@ =~= tokens()[10]);
        assert(r@[11]@ =~= tokens()[11]);
        assert(r@[12]@ =~= tokens()[12]);
        assert(r@[13]@ =~= tokens()[13]);
        assert(r@[14]@ =~= tokens()[14]);
        assert(r@[15]@ =~= tokens()[15]);
        assert(r@[16]@ =~= tokens()[16]);
        assert(r@[17]@ =~= tokens()[17]);
        assert(r@[18]@ =~= tokens()[18]);
        assert(r@[19]@ =~= tokens()[19]);
        assert(r@[20]@ =~= tokens()[20]);
        assert(r@[21]@ =~= tokens()[21]);
        assert(r@[22]@ =~= tokens()[22]);
        assert(r@[23]@ =~= tokens()[23]);
        assert(r@[24]@ =~= tokens()[24]);
        assert(r@[25]@ =~= tokens()[25]);
    }
    r
}

fn month_list() -> (r: Vec<Vec<char>>)
    ensures
        r@.len() == month_names().len(),
        forall|k: int| 0 <= k < r@.len() ==> #[trigger] r@[k]@ == month_names()[k],
{
    let r = vec![
        vec!['J', 'a', 'n', 'u', 'a', 'r', 'y'],
        vec!['F', 'e', 'b', 'r', 'u', 'a', 'r', 'y'],
        vec!['M', 'a', 'r', 'c', 'h'],
        vec!['A', 'p', 'r', 'i', 'l'],
        vec!['M', 'a', 'y'],
        vec!['J', 'u', 'n', 'e'],
        vec!['J', 'u', 'l', 'y'],
        vec!['A', 'u', 'g', 'u', 's', 't'],
        vec!['S', 'e', 'p', 't', 'e', 'm', 'b', 'e', 'r'],
        vec!['O', 'c', 't', 'o', 'b', 'e', 'r'],
        vec!['N', 'o', 'v', 'e', 'm', 'b', 'e', 'r'],
        vec!['D', 'e', 'c', 'e', 'm', 'b', 'e', 'r'],
    ];
    proof {
        assert(r@.len() == 12);
        assert(month_names().len() == 12);
        assert(r@[0]@ =~= month_names()[0]);
        assert(r@[1]@ =~= month_names()[1]);
        assert(r@[2]@ =~= month_names()[2]);
        assert(r@[3]@ =~= month_names()[3]);
        assert(r@[4]@ =~= month_names()[4]);
        assert(r@[5]@ =~= month_names()[5]);
        assert(r@[6]@ =~= month_names()[6]);
        assert(r@[7]@ =~= month_names()[7]);
        assert(r@[8]@ =~= month_names()[8]);
        assert(r@[9]@ =~= month_names()[9]);
        assert(r@[10]@ =~= month_names()[10]);
        assert(r@[11]@ =~= month_names()[11]);
    }
    r
}

fn weekday_list() -> (r: Vec<Vec<char>>)
    ensures
        r@.len() == weekday_names().len(),
        forall|k: int| 0 <= k < r@.len() ==> #[trigger] r@[k]@ == weekday_names()[k],
{
    let r = vec![
        vec!['S', 'u', 'n', 'd', 'a', 'y'],
        vec!['M', 'o', 'n', 'd', 'a', 'y'],
        vec!['T', 'u', 'e', 's', 'd', 'a', 'y'],
        vec!['W', 'e', 'd', 'n', 'e', 's', 'd', 'a', 'y'],
        vec!['T', 'h', 'u', 'r', 's', 'd', 'a', 'y'],
        vec!['F', 'r', 'i', 'd', 'a', 'y'],
        vec!['S', 'a', 't', 'u', 'r', 'd', 'a', 'y'],
    ];
    proof {
        assert(r@.len() == 7);
        assert(weekday_names().len() == 7);
        assert(r@[0]@ =~= weekday_names()[0]);
        assert(r@[1]@ =~= weekday_names()[1]);
        assert(r@[2]@ =~= weekday_names()[2]);
        assert(r@[3]@ =~= weekday_names()[3]);
        assert(r@[4]@ =~= weekday_names()[4]);
        assert(r@[5]@ =~= weekday_names()[5]);
        assert(r@[6]@ =~= weekday_names()[6]);
    }
    r
}

/// Within a 400-year era, the day-of-era arithmetic of `civil_from_days` lands on a day of the
/// year between 0 and 365.
pub proof fn lemma_doy_range(doe: int)
    requires
        0 <= doe <= 146096,
    ensures
        ({
            let yoe = (doe - doe / 1460 + doe / 36524 - doe / 146096) / 365;
            let doy = doe - (365 * yoe + yoe / 4 - yoe / 100);
            0 <= yoe <= 399 && 0 <= doy <= 365
        }),
{
    if doe == 146096 {
        lemma_fundamental_div_mod_converse(doe, 1460, 100, 96);
        lemma_fundamental_div_mod_converse(doe, 36524, 4, 0);
        lemma_fundamental_div_mod_converse(doe, 146096, 1, 0);
        lemma_fundamental_div_mod_converse(145999, 365, 399, 364);
        lemma_fundamental_div_mod_converse(399, 4, 99, 3);
        lemma_fundamental_div_mod_converse(399, 100, 3, 99);
    } else {
        lemma_fundamental_div_mod_converse(doe, 146096, 0, doe);
        // doe = 36524 c + 1461 j + 365 i + t
        let c = doe / 36524;
        lemma_fundamental_div_mod(doe, 36524);
        lemma_mod_pos_bound(doe, 36524);
        let r = doe % 36524;
        let j = r / 1461;
        lemma_fundamental_div_mod(r, 1461);
        lemma_mod_pos_bound(r, 1461);
        let s = r % 1461;
        let i = s / 365;
        lemma_fundamental_div_mod(s, 365);
        lemma_mod_pos_bound(s, 365);
        let t = s % 365;
        assert(0 <= c <= 3);
        assert(0 <= j <= 24);
        assert(0 <= i <= 4);
        assert(i == 4 ==> t == 0);
        let u = 24 * c + j + 365 * i + t;
        let e: int = if u >= 1460 {
            1
        } else {
            0
        };
        lemma_fundamental_div_mod_converse(doe, 1460, 25 * c + j + e, u - 1460 * e);
        let n = doe - doe / 1460 + doe / 36524 - doe / 146096;
        assert(n == 365 * (100 * c + 4 * j + i) + t - e);
        if i == 4 {
            let y = 100 * c + 4 * j + 3;
            lemma_fundamental_div_mod_converse(n, 365, y, 364);
            lemma_fundamental_div_mod_converse(y, 4, 25 * c + j, 3);
            lemma_fundamental_div_mod_converse(y, 100, c, 4 * j + 3);
        } else {
            let y = 100 * c + 4 * j + i;
            lemma_fundamental_div_mod_converse(n, 365, y, t - e);
            lemma_fundamental_div_mod_converse(y, 4, 25 * c + j, i);
            lemma_fundamental_div_mod_converse(y, 100, c, 4 * j + i);
        }
    }
}

/// Between 1 January and a date with a month of 1 to 12 and a day of 1 to 31 lie 0 to 365 days.
pub proof fn lemma_ordinal_bounds(d: Date)
    requires
        1 <= d.month <= 12,
        1 <= d.day <= 31,
    ensures
        0 <= days_spec(d) - days_spec(Date { year: d.year, month: 1, day: 1 }) <= 365,
{
    let jan = Date { year: d.year, month: 1, day: 1 };
    let y = d.year as int;
    if d.month <= 2 {
    } else {
        let era1 = y / 400;
        let yoe1 = y - era1 * 400;
        let era0 = (y - 1) / 400;
        let yoe0 = (y - 1) - era0 * 400;
        if yoe1 >= 1 {
            vstd::arithmetic::div_mod::lemma_fundamental_div_mod_converse(y - 1, 400, era1, yoe1 - 1);
        } else {
            vstd::arithmetic::div_mod::lemma_fundamental_div_mod_converse(y - 1, 400, era1 - 1, 399);
        }
    }
}

/// `civil_from_days` gives a month of 1 to 12 and a day of 1 to 31.
pub proof fn lemma_from_days_ranges(z: int)
    ensures
        1 <= from_days_spec(z).month <= 12,
        1 <= from_days_spec(z).day <= 31,
{
    let z2 = z + 719468;
    let era = z2 / 146097;
    let doe = z2 - era * 146097;
    lemma_doy_range(doe);
    let yoe = (doe - doe / 1460 + doe / 36524 - doe / 146096) / 365;
    let doy = doe - (365 * yoe + yoe / 4 - yoe / 100);
    let mp = (5 * doy + 2) / 153;
    assert(0 <= mp <= 11);
    let day = doy - (153 * mp + 2) / 5 + 1;
    assert(1 <= day <= 31) by (nonlinear_arith)
        requires
            0 <= doy <= 365,
            mp == (5 * doy + 2) / 153,
            day == doy - (153 * mp + 2) / 5 + 1,
    ;
}

impl Date {
    /// 1-based day of the year.
    pub fn ordinal(self) -> (r: u32)
        requires
            1 <= self.month <= 12,
            1 <= self.day <= 31,
        ensures
            r == ordinal_spec(self),
    {
        let jan = Date { year: self.year, month: 1, day: 1 };
        let diff = self.days() - jan.days();
        proof {
            lemma_ordinal_bounds(self);
        }
        diff as u32 + 1
    }

    /// ISO 8601 week-numbering year and week.
    pub fn iso_week(self) -> (r: (i32, u32))
        requires
            1 <= self.month <= 12,
            1 <= self.day <= 31,
        ensures
            r.0 == iso_week_spec(self).0,
            r.1 == iso_week_spec(self).1,
    {
        let iso_wd = (self.weekday() + 6) % 7;
        proof {
            lemma_ordinal_bounds(self);
            lemma_days_range(self);
        }
        let thursday = self.add_days(3 - iso_wd as i64);
        proof {
            lemma_from_days_ranges(days_spec(self) + 3 - iso_wd);
        }
        (thursday.year, (thursday.ordinal() - 1) / 7 + 1)
    }

    /// Moment's `en` locale week: weeks start on Sunday and week 1 holds 1 January.
    pub fn locale_week(self) -> (r: (i32, u32))
        requires
            1 <= self.month <= 12,
            1 <= self.day <= 31,
        ensures
            r.0 == locale_week_spec(self).0,
            r.1 == locale_week_spec(self).1,
    {
        let wd = self.weekday();
        proof {
            lemma_days_range(self);
        }
        let saturday = self.add_days(6 - wd as i64);
        proof {
            lemma_from_days_ranges(days_spec(self) + 6 - wd);
        }
        (saturday.year, (saturday.ordinal() - 1) / 7 + 1)
    }
}

/// Day numbers of dates with a month of 1 to 12 and a day of 1 to 31 stay within 800 billion
/// days of 1970-01-01 (an `i32` year is at most about 5.4 million eras of 146097 days).
pub proof fn lemma_days_range(d: Date)
    requires
        1 <= d.month <= 12,
        1 <= d.day <= 31,
    ensures
        -800_000_000_000 <= days_spec(d) <= 800_000_000_000,
{
    let y = d.year as int - if d.month <= 2 {
        1int
    } else {
        0int
    };
    let era = y / 400;
    lemma_fundamental_div_mod(y, 400);
    lemma_mod_pos_bound(y - 400 * era, 400);
    let yoe = y - era * 400;
    assert(0 <= y % 400 < 400);
    assert(-5_368_710 <= era <= 5_368_710);
}

fn token_exec(k: usize, d: Date) -> (r: Vec<char>)
    requires
        k < 26,
        d.valid(),
    ensures
        r@ == token_text(k as int, d),
{
    reveal(token_text);
    let months = month_list();
    let wds = weekday_list();
    let wd = d.weekday();
    proof {
        lemma_ordinal_bounds(d);
    }
    let month = &months[(d.month - 1) as usize];
    let weekday = &wds[wd as usize];
    if k == 0 {
        fmt_i64(d.year as i64, 4)
    } else if k == 1 {
        fmt_i64(d.iso_week().0 as i64, 4)
    } else if k == 2 {
        fmt_i64(d.locale_week().0 as i64, 4)
    } else if k == 3 {
        slice(month, 0, month.len())
    } else if k == 4 {
        fmt_i64(d.ordinal() as i64, 3)
    } else if k == 5 {
        slice(weekday, 0, weekday.len())
    } else if k == 6 {
        slice(month, 0, 3)
    } else if k == 7 {
        fmt_u64(d.ordinal() as u64)
    } else if k == 8 {
        slice(weekday, 0, 3)
    } else if k == 9 {
        fmt_i64(rem_floor(d.year as i64, 100), 2)
    } else if k == 10 {
        fmt_i64(rem_floor(d.iso_week().0 as i64, 100), 2)
    } else if k == 11 {
        fmt_i64(rem_floor(d.locale_week().0 as i64, 100), 2)
    } else if k == 12 {
        fmt_i64(d.month as i64, 2)
    } else if k == 13 {
        fmt_i64(d.day as i64, 2)
    } else if k == 14 {
        let mut s = fmt_u64(d.day as u64);
        let suffix = if 11 <= d.day % 100 && d.day % 100 <= 13 {
            vec!['t', 'h']
        } else if d.day % 10 == 1 {
            vec!['s', 't']
        } else if d.day % 10 == 2 {
            vec!['n', 'd']
        } else if d.day % 10 == 3 {
            vec!['r', 'd']
        } else {
            vec!['t', 'h']
        };
        proof {
            assert(suffix@ =~= ordinal_suffix(d.day as int));
        }
        append(&mut s, &suffix);
        s
    } else if k == 15 {
        slice(weekday, 0, 2)
    } else if k == 16 {
        fmt_i64(d.iso_week().1 as i64, 2)
    } else if k == 17 {
        fmt_i64(d.locale_week().1 as i64, 2)
    } else if k == 18 {
        fmt_u64(((d.month - 1) / 3 + 1) as u64)
    } else if k == 19 {
        fmt_u64(d.month as u64)
    } else if k == 20 {
        fmt_u64(d.day as u64)
    } else if k == 21 || k == 23 {
        fmt_u64(wd as u64)
    } else if k == 22 {
        fmt_u64(((wd + 6) % 7 + 1) as u64)
    } else if k == 24 {
        fmt_u64(d.iso_week().1 as u64)
    } else {
        fmt_u64(d.locale_week().1 as u64)
    }
}

/// `n.rem_euclid(m)`.
fn rem_floor(n: i64, m: i64) -> (r: i64)
    requires
        m > 0,
        n >= i64::MIN + m,
    ensures
        r == n % m,
{
    let q = div_floor(n, m);
    n - q * m
}

fn first_token_exec(rest: &[char], toks: &Vec<Vec<char>>) -> (r: Option<usize>)
    requires
        toks@.len() == 26,
        forall|k: int| 0 <= k < 26 ==> #[trigger] toks@[k]@ == tokens()[k],
    ensures
        match r {
            Some(k) => first_token(rest@, 0) == Some(k as int) && k < 26,
            None => first_token(rest@, 0) is None,
        },
{
    let mut k: usize = 0;
    while k < 26
        invariant
            k <= 26,
            toks@.len() == 26,
            forall|j: int| 0 <= j < 26 ==> #[trigger] toks@[j]@ == tokens()[j],
            first_token(rest@, 0) == first_token(rest@, k as int),
        decreases 26 - k,
    {
        if starts_with_exec(rest, &toks[k]) {
            return Some(k);
        }
        k += 1;
    }
    None
}

/// A `[…]` at `i` is copied without its brackets.
proof fn lemma_format_bracket(format: Seq<char>, i: int, e: int, d: Date)
    requires
        0 <= i < format.len(),
        format[i] == '[',
        find(format.skip(i).drop_first(), seq![']']) == Some(e),
    ensures
        0 <= e,
        i + e + 2 <= format.len(),
        format_date_spec(format.skip(i), d) == format.subrange(i + 1, i + 1 + e) + format_date_spec(
            format.skip(i + e + 2),
            d,
        ),
{
    let rest = format.skip(i);
    lemma_find(rest.drop_first(), seq![']']);
    assert(rest.skip(e + 2) =~= format.skip(i + e + 2));
    assert(rest.subrange(1, 1 + e) =~= format.subrange(i + 1, i + 1 + e));
}

/// Outside `[…]`, the first token that matches at `i` is replaced by its text.
proof fn lemma_format_token(format: Seq<char>, i: int, k: int, d: Date)
    requires
        0 <= i < format.len(),
        format[i] != '[' || find(format.skip(i).drop_first(), seq![']']) is None,
        first_token(format.skip(i), 0) == Some(k),
    ensures
        0 <= k < 26,
        i + tokens()[k].len() <= format.len(),
        format_date_spec(format.skip(i), d) == token_text(k, d) + format_date_spec(
            format.skip(i + tokens()[k].len()),
            d,
        ),
{
    let rest = format.skip(i);
    lemma_find(rest.drop_first(), seq![']']);
    lemma_first_token(rest, 0);
    assert(rest.skip(tokens()[k].len() as int) =~= format.skip(i + tokens()[k].len()));
}

/// A token at the start of a format is replaced by its text.
pub proof fn lemma_format_token_at_start(format: Seq<char>, k: int, d: Date)
    requires
        format.len() > 0,
        format[0] != '[',
        first_token(format, 0) == Some(k),
    ensures
        0 <= k < 26,
        tokens()[k].len() <= format.len(),
        format_date_spec(format, d) == token_text(k, d) + format_date_spec(format.skip(tokens()[k].len() as int), d),
{
    assert(format.skip(0) =~= format);
    lemma_format_token(format, 0, k, d);
}

/// Anything else is copied through.
proof fn lemma_format_other(format: Seq<char>, i: int, d: Date)
    requires
        0 <= i < format.len(),
        format[i] != '[' || find(format.skip(i).drop_first(), seq![']']) is None,
        first_token(format.skip(i), 0) is None,
    ensures
        format_date_spec(format.skip(i), d) == seq![format[i]] + format_date_spec(format.skip(i + 1), d),
{
    let rest = format.skip(i);
    lemma_find(rest.drop_first(), seq![']']);
    assert(rest.drop_first() =~= format.skip(i + 1));
}

/// What the format makes of its text from `i` on, up to the next position it looks at.
fn format_step(format: &[char], i: usize, date: Date, toks: &Vec<Vec<char>>, close: &Vec<char>) -> (r: (
    Vec<char>,
    usize,
))
    requires
        i < format.len(),
        date.valid(),
        toks@.len() == 26,
        forall|k: int| 0 <= k < 26 ==> #[trigger] toks@[k]@ == tokens()[k],
        close@ == seq![']'],
    ensures
        i < r.1 <= format.len(),
        format_date_spec(format@.skip(i as int), date) == r.0@ + format_date_spec(
            format@.skip(r.1 as int),
            date,
        ),
{
    let after = slice(format, i + 1, format.len());
    proof {
        assert(after@ =~= format@.skip(i as int).drop_first());
    }
    let found = find_exec(&after, close);
    if format[i] == '[' && found.is_some() {
        let e = found.unwrap();
        proof {
            lemma_format_bracket(format@, i as int, e as int, date);
        }
        let lit_part = slice(&after, 0, e);
        proof {
            assert(lit_part@ =~= format@.subrange(i + 1, i + 1 + e));
        }
        (lit_part, i + e + 2)
    } else {
        let rest_v = slice(format, i, format.len());
        proof {
            assert(rest_v@ =~= format@.skip(i as int));
        }
        match first_token_exec(&rest_v, toks) {
            Some(k) => {
                proof {
                    lemma_format_token(format@, i as int, k as int, date);
                }
                let t = token_exec(k, date);
                let n = toks[k].len();
                (t, i + n)
            },
            None => {
                proof {
                    lemma_format_other(format@, i as int, date);
                }
                let one = vec![format[i]];
                proof {
                    assert(one@ =~= seq![format@[i as int]]);
                }
                (one, i + 1)
            },
        }
    }
}

/// Format a date with a Moment.js format, given as characters.
fn format_date_chars(format: &[char], date: Date) -> (r: Vec<char>)
    requires
        date.valid(),
    ensures
        r@ == format_date_spec(format@, date),
{
    let toks = token_list();
    let close = vec![']'];
    proof {
        assert(close@ =~= seq![']']);
    }
    let mut out: Vec<char> = Vec::new();
    let mut i: usize = 0;
    while i < format.len()
        invariant
            i <= format.len(),
            date.valid(),
            toks@.len() == 26,
            forall|k: int| 0 <= k < 26 ==> #[trigger] toks@[k]@ == tokens()[k],
            close@ == seq![']'],
            out@ + format_date_spec(format@.skip(i as int), date) == format_date_spec(format@, date),
        decreases format.len() - i,
    {
        let ghost before = out@;
        let (piece, next) = format_step(format, i, date, &toks, &close);
        append(&mut out, &piece);
        proof {
            let x = format_date_spec(format@.skip(next as int), date);
            assert(out@ + x =~= before + (piece@ + x));
        }
        i = next;
    }
    proof {
        assert(format@.skip(format.len() as int) =~= Seq::<char>::empty());
    }
    out
}

proof fn lemma_first_token(rest: Seq<char>, k: int)
    requires
        0 <= k,
    ensures
        match first_token(rest, k) {
            Some(j) => k <= j < 26 && starts_with(rest, tokens()[j]) && tokens()[j].len() > 0,
            None => true,
        },
    decreases 26 - k,
{
    if k < 26 {
        assert(tokens()[k].len() > 0);
        if !starts_with(rest, tokens()[k]) {
            lemma_first_token(rest, k + 1);
        }
    }
}

/// Format a date with a Moment.js format string (the subset that makes sense for a date).
pub fn format_date(format: &str, date: Date) -> (r: String)
    requires
        date.valid(),
    ensures
        r@ == format_date_spec(format@, date),
{
    string_of(&format_date_chars(&chars_of(format), date))
}

/// A string member of an Obsidian settings object, trimmed; empty when missing.
pub open spec fn obsidian_member(v: Json, key: Seq<char>) -> Seq<char> {
    trim(
        match json_str(json_get(v, key)) {
            Some(s) => s,
            None => seq![],
        },
    )
}

/// Settings from an Obsidian `daily-notes.json` (folder, format, template); `None` for a text
/// that is not JSON. An empty folder is the vault root there; a template gets its `.md`.
pub open spec fn from_obsidian_spec(raw: Seq<char>) -> Option<(Seq<char>, Seq<char>, Seq<char>)> {
    match json_document(raw) {
        Some(v) => {
            let folder = obsidian_member(v, seq!['f', 'o', 'l', 'd', 'e', 'r']);
            let template = obsidian_member(v, seq!['t', 'e', 'm', 'p', 'l', 'a', 't', 'e']);
            Some(
                (
                    if folder.len() == 0 {
                        seq!['/']
                    } else {
                        folder
                    },
                    obsidian_member(v, seq!['f', 'o', 'r', 'm', 'a', 't']),
                    if template.len() == 0 || ends_with(template, seq!['.', 'm', 'd']) || ends_with(
                        template,
                        seq!['.', 'q', 'm', 'd'],
                    ) {
                        template
                    } else {
                        template + seq!['.', 'm', 'd']
                    },
                ),
            )
        },
        None => None,
    }
}

fn obsidian_member_exec(v: &Json, key: &str) -> (r: Vec<char>)
    ensures
        r@ == obsidian_member(*v, key@),
{
    match get_str(v, key) {
        Some(s) => trim_exec(&chars_of(s.as_str())),
        None => {
            let e: Vec<char> = Vec::new();
            proof {
                assert(e@ =~= Seq::<char>::empty());
            }
            trim_exec(&e)
        },
    }
}

impl DailySettings {
    /// Settings from an Obsidian `daily-notes.json`: `folder`, `format`, `template` (the last
    /// without its `.md`). Missing keys stay empty, i.e. default; an empty folder means the root,
    /// where Obsidian keeps daily notes when none is set.
    pub fn from_obsidian(raw: &str) -> (r: Option<DailySettings>)
        ensures
            match r {
                Some(d) => from_obsidian_spec(raw@) == Some((d.folder@, d.format@, d.template@)),
                None => from_obsidian_spec(raw@) is None,
            },
    {
        match parse_json(raw) {
            Ok(v) => {
                proof {
                    reveal_strlit("folder");
                    reveal_strlit("format");
                    reveal_strlit("template");
                    assert("folder"@ =~= seq!['f', 'o', 'l', 'd', 'e', 'r']);
                    assert("format"@ =~= seq!['f', 'o', 'r', 'm', 'a', 't']);
                    assert("template"@ =~= seq!['t', 'e', 'm', 'p', 'l', 'a', 't', 'e']);
                }
                let folder = obsidian_member_exec(&v, "folder");
                let format = obsidian_member_exec(&v, "format");
                let template = obsidian_member_exec(&v, "template");
                let md = vec!['.', 'm', 'd'];
                let qmd = vec!['.', 'q', 'm', 'd'];
                let root = vec!['/'];
                proof {
                    assert(md@ =~= seq!['.', 'm', 'd']);
                    assert(qmd@ =~= seq!['.', 'q', 'm', 'd']);
                    assert(root@ =~= seq!['/']);
                }
                let f = if folder.len() == 0 {
                    root
                } else {
                    folder
                };
                let t = if template.len() == 0 || ends_with_exec(&template, &md) || ends_with_exec(&template, &qmd) {
                    template
                } else {
                    concat(&template, &md)
                };
                Some(DailySettings { folder: string_of(&f), format: string_of(&format), template: string_of(&t) })
            },
            Err(_) => None,
        }
    }
}

} // verus!
