//! How often a goal repeats, and the words in which that is written.

use vstd::prelude::*;
use vstd::string::{StrSliceExecFns, StringExecFns};

verus! {

/// How often a goal repeats.
#[derive(Debug, Copy, Clone, PartialEq, Eq, Structural)]
pub enum Repetition {
    /// So many times on every day.
    DAILY(usize),
    /// In every hour.
    HOURLY,
    /// So many times in every week.
    WEEKLY(usize),
    /// On every day from Monday to Friday.
    WEEKDAYS,
    /// On every Saturday and Sunday.
    WEEKENDS,
    /// Once in every so many days.
    EveryXdays(usize),
    /// Once in every so many hours.
    EveryXhours(usize),
    MONDAYS,
    TUESDAYS,
    WEDNESDAYS,
    THURSDAYS,
    FRIDAYS,
    SATURDAYS,
    SUNDAYS,
}

/// `c` is one of the digits 0 to 9.
pub open spec fn is_digit(c: char) -> bool {
    '0' <= c <= '9'
}

/// Every character of `s` is a digit.
pub open spec fn all_digits(s: Seq<char>) -> bool {
    forall|i: int| 0 <= i < s.len() ==> is_digit(#[trigger] s[i])
}

/// The number that the digits `s` write in base ten.
pub open spec fn digits_value(s: Seq<char>) -> int
    decreases s.len(),
{
    if s.len() == 0 {
        0
    } else {
        digits_value(s.drop_last()) * 10 + (s.last() as int - '0' as int)
    }
}

/// The number that `s` writes: `s` is one digit or more, and the number
/// fits.
pub open spec fn number_of(s: Seq<char>) -> Option<usize> {
    if s.len() > 0 && all_digits(s) && digits_value(s) <= usize::MAX {
        Some(digits_value(s) as usize)
    } else {
        None
    }
}

/// `s` starts with `prefix`.
pub open spec fn starts_with(s: Seq<char>, prefix: Seq<char>) -> bool {
    s.len() >= prefix.len() && s.subrange(0, prefix.len() as int) == prefix
}

/// `s` ends with `suffix`.
pub open spec fn ends_with(s: Seq<char>, suffix: Seq<char>) -> bool {
    s.len() >= suffix.len() && s.subrange(s.len() - suffix.len(), s.len() as int) == suffix
}

/// The number between `prefix` and `suffix`, where `s` is the two with a
/// number in between.
pub open spec fn counted(s: Seq<char>, prefix: Seq<char>, suffix: Seq<char>) -> Option<usize> {
    if s.len() >= prefix.len() + suffix.len() && starts_with(s, prefix) && ends_with(s, suffix) {
        number_of(s.subrange(prefix.len() as int, s.len() - suffix.len()))
    } else {
        None
    }
}

/// The repetition that `s` names.
///
/// The names are `daily`, `hourly`, `weekly`, `weekdays`, `weekends`, the
/// days of the week from `mondays` to `sundays`, and with a number `n`:
/// `n/week`, `n/day`, `every n days`, `every n hours`.
pub open spec fn repetition_named(s: Seq<char>) -> Option<Repetition> {
    if s == "daily"@ {
        Some(Repetition::DAILY(1))
    } else if s == "hourly"@ {
        Some(Repetition::HOURLY)
    } else if s == "weekly"@ {
        Some(Repetition::WEEKLY(1))
    } else if s == "weekdays"@ {
        Some(Repetition::WEEKDAYS)
    } else if s == "weekends"@ {
        Some(Repetition::WEEKENDS)
    } else if s == "mondays"@ {
        Some(Repetition::MONDAYS)
    } else if s == "tuesdays"@ {
        Some(Repetition::TUESDAYS)
    } else if s == "wednesdays"@ {
        Some(Repetition::WEDNESDAYS)
    } else if s == "thursdays"@ {
        Some(Repetition::THURSDAYS)
    } else if s == "fridays"@ {
        Some(Repetition::FRIDAYS)
    } else if s == "saturdays"@ {
        Some(Repetition::SATURDAYS)
    } else if s == "sundays"@ {
        Some(Repetition::SUNDAYS)
    } else if counted(s, Seq::<char>::empty(), "/week"@) is Some {
        Some(Repetition::WEEKLY(counted(s, Seq::<char>::empty(), "/week"@)->0))
    } else if counted(s, Seq::<char>::empty(), "/day"@) is Some {
        Some(Repetition::DAILY(counted(s, Seq::<char>::empty(), "/day"@)->0))
    } else if counted(s, "every "@, " days"@) is Some {
        Some(Repetition::EveryXdays(counted(s, "every "@, " days"@)->0))
    } else if counted(s, "every "@, " hours"@) is Some {
        Some(Repetition::EveryXhours(counted(s, "every "@, " hours"@)->0))
    } else {
        None
    }
}

/// The digits of a number write at least what its first digits write.
pub proof fn lemma_digits_value_grows(s: Seq<char>, k: int)
    requires
        all_digits(s),
        0 <= k <= s.len(),
    ensures
        0 <= digits_value(s.take(k)) <= digits_value(s),
    decreases s.len() - k,
{
    if k < s.len() {
        lemma_digits_value_grows(s, k + 1);
        assert(s.take(k + 1).drop_last() =~= s.take(k));
        assert(is_digit(s[k]));
        lemma_digits_value_nonnegative(s.take(k));
    } else {
        assert(s.take(k) =~= s);
        lemma_digits_value_nonnegative(s);
    }
}

/// Digits write no negative number.
pub proof fn lemma_digits_value_nonnegative(s: Seq<char>)
    requires
        all_digits(s),
    ensures
        0 <= digits_value(s),
    decreases s.len(),
{
    if s.len() > 0 {
        assert(is_digit(s[s.len() - 1]));
        lemma_digits_value_nonnegative(s.drop_last());
    }
}

/// Whether `s` and `text` are the same characters.
fn reads(s: &str, text: &str) -> (r: bool)
    ensures
        r == (s@ == text@),
{
    let n = s.unicode_len();
    if n != text.unicode_len() {
        return false;
    }
    let mut i: usize = 0;
    while i < n
        invariant
            i <= n,
            n == s@.len(),
            n == text@.len(),
            forall|k: int| 0 <= k < i ==> s@[k] == text@[k],
        decreases n - i,
    {
        if s.get_char(i) != text.get_char(i) {
            return false;
        }
        i += 1;
    }
    assert(s@ =~= text@);
    true
}

/// Whether the characters of `s` from position `at` on start with `text`.
fn reads_at(s: &str, at: usize, text: &str) -> (r: bool)
    requires
        at <= s@.len(),
    ensures
        r == (at + text@.len() <= s@.len() && s@.subrange(at as int, at + text@.len()) == text@),
{
    let n = s.unicode_len();
    let m = text.unicode_len();
    if m > n - at {
        return false;
    }
    let mut i: usize = 0;
    while i < m
        invariant
            i <= m,
            n == s@.len(),
            m == text@.len(),
            at + m <= n,
            forall|k: int| 0 <= k < i ==> s@[at + k] == text@[k],
        decreases m - i,
    {
        if s.get_char(at + i) != text.get_char(i) {
            assert(s@.subrange(at as int, at + m)[i as int] == s@[at + i]);
            return false;
        }
        i += 1;
    }
    assert(s@.subrange(at as int, at + m) =~= text@);
    true
}

/// The number that the characters of `s` from position `from` up to
/// position `to` write.
fn number_between(s: &str, from: usize, to: usize) -> (r: Option<usize>)
    requires
        from <= to <= s@.len(),
    ensures
        r == number_of(s@.subrange(from as int, to as int)),
{
    let ghost digits = s@.subrange(from as int, to as int);
    if from == to {
        return None;
    }
    let mut value: usize = 0;
    let mut i: usize = from;
    proof {
        assert(digits.take(0) =~= Seq::<char>::empty());
    }
    while i < to
        invariant
            from <= i <= to,
            to <= s@.len(),
            digits == s@.subrange(from as int, to as int),
            all_digits(digits.take(i - from)),
            value == digits_value(digits.take(i - from)),
        decreases to - i,
    {
        let c = s.get_char(i);
        proof {
            assert(digits[i - from] == c);
            assert(digits.take(i - from + 1).drop_last() =~= digits.take(i - from));
            assert(digits.take(i - from + 1).last() == c);
        }
        if c < '0' || c > '9' {
            proof {
                assert(!is_digit(digits[i - from]));
            }
            return None;
        }
        let digit: usize = (c as u32 - '0' as u32) as usize;
        proof {
            assert forall|k: int| 0 <= k < digits.take(i - from + 1).len() implies is_digit(
                #[trigger] digits.take(i - from + 1)[k],
            ) by {
                if k < i - from {
                    assert(digits.take(i - from)[k] == digits.take(i - from + 1)[k]);
                }
            }
        }
        if value > (usize::MAX - digit) / 10 {
            proof {
                if all_digits(digits) {
                    lemma_digits_value_grows(digits, i - from + 1);
                }
            }
            return None;
        }
        value = value * 10 + digit;
        i += 1;
    }
    proof {
        assert(digits.take(to - from) =~= digits);
    }
    Some(value)
}

/// The number between `prefix` and `suffix`, where `s` is the two with a
/// number in between.
fn number_within(s: &str, prefix: &str, suffix: &str) -> (r: Option<usize>)
    ensures
        r == counted(s@, prefix@, suffix@),
{
    let n = s.unicode_len();
    let p = prefix.unicode_len();
    let q = suffix.unicode_len();
    if p > n || q > n - p {
        return None;
    }
    if !reads_at(s, 0, prefix) {
        return None;
    }
    if !reads_at(s, n - q, suffix) {
        return None;
    }
    number_between(s, p, n - q)
}

impl Repetition {
    /// The repetition that `s` names; `None` where `s` is no name of a
    /// repetition.
    pub fn parse(s: &str) -> (r: Option<Repetition>)
        ensures
            r == repetition_named(s@),
    {
        if reads(s, "daily") {
            return Some(Repetition::DAILY(1));
        }
        if reads(s, "hourly") {
            return Some(Repetition::HOURLY);
        }
        if reads(s, "weekly") {
            return Some(Repetition::WEEKLY(1));
        }
        if reads(s, "weekdays") {
            return Some(Repetition::WEEKDAYS);
        }
        if reads(s, "weekends") {
            return Some(Repetition::WEEKENDS);
        }
        if reads(s, "mondays") {
            return Some(Repetition::MONDAYS);
        }
        if reads(s, "tuesdays") {
            return Some(Repetition::TUESDAYS);
        }
        if reads(s, "wednesdays") {
            return Some(Repetition::WEDNESDAYS);
        }
        if reads(s, "thursdays") {
            return Some(Repetition::THURSDAYS);
        }
        if reads(s, "fridays") {
            return Some(Repetition::FRIDAYS);
        }
        if reads(s, "saturdays") {
            return Some(Repetition::SATURDAYS);
        }
        if reads(s, "sundays") {
            return Some(Repetition::SUNDAYS);
        }
        proof {
            reveal_strlit("");
            assert(""@ =~= Seq::<char>::empty());
        }
        if let Some(n) = number_within(s, "", "/week") {
            return Some(Repetition::WEEKLY(n));
        }
        if let Some(n) = number_within(s, "", "/day") {
            return Some(Repetition::DAILY(n));
        }
        if let Some(n) = number_within(s, "every ", " days") {
            return Some(Repetition::EveryXdays(n));
        }
        if let Some(n) = number_within(s, "every ", " hours") {
            return Some(Repetition::EveryXhours(n));
        }
        None
    }

    /// The short name of the repetition. For a day of the week it is the
    /// three letters of the day.
    pub open spec fn label(self) -> Seq<char> {
        match self {
            Repetition::DAILY(_) => "DAILY"@,
            Repetition::HOURLY => "HOURLY"@,
            Repetition::WEEKLY(_) => "WEEKLY"@,
            Repetition::WEEKDAYS => "WEEKDAYS"@,
            Repetition::WEEKENDS => "WEEKENDS"@,
            Repetition::EveryXdays(_) => "EveryXdays"@,
            Repetition::EveryXhours(_) => "EveryXhours"@,
            Repetition::MONDAYS => "Mon"@,
            Repetition::TUESDAYS => "Tue"@,
            Repetition::WEDNESDAYS => "Wed"@,
            Repetition::THURSDAYS => "Thu"@,
            Repetition::FRIDAYS => "Fri"@,
            Repetition::SATURDAYS => "Sat"@,
            Repetition::SUNDAYS => "Sun"@,
        }
    }

    /// The short name of the repetition.
    pub fn to_string(&self) -> (r: String)
        ensures
            r@ == self.label(),
    {
        let name = match self {
            Repetition::DAILY(_) => "DAILY",
            Repetition::HOURLY => "HOURLY",
            Repetition::WEEKLY(_) => "WEEKLY",
            Repetition::WEEKDAYS => "WEEKDAYS",
            Repetition::WEEKENDS => "WEEKENDS",
            Repetition::EveryXdays(_) => "EveryXdays",
            Repetition::EveryXhours(_) => "EveryXhours",
            Repetition::MONDAYS => "Mon",
            Repetition::TUESDAYS => "Tue",
            Repetition::WEDNESDAYS => "Wed",
            Repetition::THURSDAYS => "Thu",
            Repetition::FRIDAYS => "Fri",
            Repetition::SATURDAYS => "Sat",
            Repetition::SUNDAYS => "Sun",
        };
        String::from_str(name)
    }
}

} // verus!
