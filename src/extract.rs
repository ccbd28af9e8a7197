use crate::date::Date;
use chrono::Month;
use regex::Regex;
use std::str::FromStr;
use vstd::prelude::*;
use vstd::string::StrSliceExecFns;
use vstd::string::StringSliceAdditionalSpecFns;

verus! {

/// The freshness phrase: "as of" in any letter case, a month word and a four-digit year.
pub const DATE_PATTERN: &'static str = "[aA][sS]\\s+[oO][fF]\\s+(\\w+)\\s+(\\d{4})";

/// `s` spells the lower-case ASCII word `name`, each letter in either case.
pub open spec fn same_letters(s: Seq<char>, name: Seq<char>) -> bool {
    &&& s.len() == name.len()
    &&& forall|i: int|
        0 <= i < s.len() ==> (s[i] == name[i] || s[i] as u32 + 32 == name[i] as u32)
}

/// `s` is the full or three-letter English name of a month.
pub open spec fn names_month(s: Seq<char>, short: Seq<char>, long: Seq<char>) -> bool {
    same_letters(s, short) || same_letters(s, long)
}

/// The month number named by `s`, if any.
pub open spec fn month_of_name(s: Seq<char>) -> Option<u32> {
    if names_month(s, "jan"@, "january"@) {
        Some(1)
    } else if names_month(s, "feb"@, "february"@) {
        Some(2)
    } else if names_month(s, "mar"@, "march"@) {
        Some(3)
    } else if names_month(s, "apr"@, "april"@) {
        Some(4)
    } else if same_letters(s, "may"@) {
        Some(5)
    } else if names_month(s, "jun"@, "june"@) {
        Some(6)
    } else if names_month(s, "jul"@, "july"@) {
        Some(7)
    } else if names_month(s, "aug"@, "august"@) {
        Some(8)
    } else if names_month(s, "sep"@, "september"@) {
        Some(9)
    } else if names_month(s, "oct"@, "october"@) {
        Some(10)
    } else if names_month(s, "nov"@, "november"@) {
        Some(11)
    } else if names_month(s, "dec"@, "december"@) {
        Some(12)
    } else {
        None
    }
}

/// Relies on chrono's `Month::from_str` (with `number_from_month`): it accepts exactly the
/// full and three-letter English month names, ASCII letters in any case.
#[verifier::external_body]
fn parse_month_name(s: &str) -> (r: Option<u32>)
    ensures
        r == month_of_name(s@),
{
    Month::from_str(s).ok().map(|m| m.number_from_month())
}

pub open spec fn is_digit(c: char) -> bool {
    '0' <= c <= '9'
}

/// Decimal value of a string of ASCII digits.
pub open spec fn digits_value(s: Seq<char>) -> int
    decreases s.len(),
{
    if s.len() == 0 {
        0
    } else {
        digits_value(s.drop_last()) * 10 + (s.last() as int - '0' as int)
    }
}

/// The year written by exactly four ASCII digits.
pub open spec fn year_of_digits(s: Seq<char>) -> Option<u32> {
    if s.len() == 4 && forall|i: int| 0 <= i < 4 ==> is_digit(#[trigger] s[i]) {
        Some(digits_value(s) as u32)
    } else {
        None
    }
}

/// Ten to the power `n`.
pub open spec fn pow10(n: nat) -> int
    decreases n,
{
    if n == 0 {
        1
    } else {
        10 * pow10((n - 1) as nat)
    }
}

/// Reads a year written with exactly four ASCII digits.
pub fn parse_year(s: &str) -> (r: Option<u32>)
    ensures
        r == year_of_digits(s@),
        r is Some ==> r->0 <= 9999,
{
    let n = s.unicode_len();
    if n != 4 {
        return None;
    }
    let mut value: u32 = 0;
    let mut i: usize = 0;
    while i < 4
        invariant
            s@.len() == 4,
            i <= 4,
            forall|k: int| 0 <= k < i ==> is_digit(#[trigger] s@[k]),
            value as int == digits_value(s@.take(i as int)),
            value < pow10(i as nat),
        decreases 4 - i,
    {
        let c = s.get_char(i);
        if !('0' <= c && c <= '9') {
            return None;
        }
        proof {
            assert(s@.take(i + 1).drop_last() =~= s@.take(i as int));
            assert(pow10((i + 1) as nat) == 10 * pow10(i as nat));
            reveal_with_fuel(pow10, 5);
        }
        value = value * 10 + (c as u32 - '0' as u32);
        i = i + 1;
    }
    assert(s@.take(4) =~= s@);
    proof {
        reveal_with_fuel(pow10, 5);
    }
    Some(value)
}

/// The date written by a month word and a year, when both read.
pub open spec fn phrase_date(word: Seq<char>, digits: Seq<char>) -> Option<Date> {
    match (month_of_name(word), year_of_digits(digits)) {
        (Some(m), Some(y)) => Some(Date { year: y, month: m }),
        _ => None,
    }
}

/// Number of newline bytes in `b`.
pub open spec fn newline_count(b: Seq<u8>) -> nat
    decreases b.len(),
{
    if b.len() == 0 {
        0
    } else {
        newline_count(b.drop_last()) + if b.last() == 10u8 {
            1nat
        } else {
            0nat
        }
    }
}

/// The 1-based line that holds the byte just before offset `end`.
pub open spec fn line_at(bytes: Seq<u8>, end: int) -> int {
    1 + newline_count(bytes.take(end)) as int
}

/// A found phrase: the byte offset where it ends, its month word and its year digits.
pub open spec fn match_views(v: Seq<(usize, String, String)>) -> Seq<(int, Seq<char>, Seq<char>)> {
    v.map_values(|m: (usize, String, String)| (m.0 as int, m.1@, m.2@))
}

/// The phrases that `DATE_PATTERN` finds in a text, left to right, without overlap.
pub uninterp spec fn date_phrase_matches(text: Seq<char>) -> Seq<(int, Seq<char>, Seq<char>)>;

/// Relies on regex's `Regex::new` (the pattern is well formed) and `Regex::captures_iter`:
/// the successive non-overlapping matches, each with its end offset in bytes and its two groups.
#[verifier::external_body]
fn find_phrases(pattern: &str, text: &str) -> (r: Vec<(usize, String, String)>)
    requires
        pattern@ == DATE_PATTERN@,
    ensures
        match_views(r@) == date_phrase_matches(text@),
        forall|i: int| 0 <= i < r.len() ==> r[i].0 <= text.spec_bytes().len(),
        forall|i: int, j: int| 0 <= i < j < r.len() ==> r[i].0 <= r[j].0,
{
    let re = Regex::new(pattern).unwrap();
    re.captures_iter(text).map(|c| (c.get(0).unwrap().end(), c[1].to_string(), c[2].to_string())).collect()
}

/// The annotations read from found phrases: the line where each phrase ends and its date;
/// phrases whose month word or year does not read are skipped.
pub open spec fn annotations(bytes: Seq<u8>, ms: Seq<(int, Seq<char>, Seq<char>)>) -> Seq<(int, Date)>
    decreases ms.len(),
{
    if ms.len() == 0 {
        seq![]
    } else {
        let rest = annotations(bytes, ms.drop_last());
        let m = ms.last();
        match phrase_date(m.1, m.2) {
            Some(d) => rest.push((line_at(bytes, m.0), d)),
            None => rest,
        }
    }
}

/// Line numbers taken as integers.
pub open spec fn numbered(v: Seq<(usize, Date)>) -> Seq<(int, Date)> {
    v.map_values(|p: (usize, Date)| (p.0 as int, p.1))
}

/// Every date is a valid four-digit-year month and line numbers never go down.
pub open spec fn well_ordered(v: Seq<(usize, Date)>) -> bool {
    &&& forall|i: int| 0 <= i < v.len() ==> (#[trigger] v[i]).1.wf() && v[i].1.year <= 9999
    &&& forall|i: int, j: int| 0 <= i < j < v.len() ==> v[i].0 <= v[j].0
}

/// Turns found phrases into annotations, counting lines in one pass over the text.
pub fn dates_from_matches(text: &str, matches: &Vec<(usize, String, String)>) -> (r: Vec<(usize, Date)>)
    requires
        text.spec_bytes().len() < usize::MAX,
        forall|i: int| 0 <= i < matches.len() ==> matches[i].0 <= text.spec_bytes().len(),
        forall|i: int, j: int| 0 <= i < j < matches.len() ==> matches[i].0 <= matches[j].0,
    ensures
        numbered(r@) == annotations(text.spec_bytes(), match_views(matches@)),
        well_ordered(r@),
{
    let bytes = text.as_bytes();
    let mut out: Vec<(usize, Date)> = Vec::new();
    let mut line: usize = 1;
    let mut pos: usize = 0;
    let mut i: usize = 0;
    while i < matches.len()
        invariant
            bytes@ == text.spec_bytes(),
            bytes@.len() < usize::MAX,
            forall|k: int| 0 <= k < matches.len() ==> matches[k].0 <= bytes@.len(),
            forall|k: int, j: int| 0 <= k < j < matches.len() ==> matches[k].0 <= matches[j].0,
            i <= matches.len(),
            pos <= bytes@.len(),
            forall|k: int| i <= k < matches.len() ==> pos <= matches[k].0,
            line == line_at(bytes@, pos as int),
            line <= pos + 1,
            numbered(out@) == annotations(bytes@, match_views(matches@).take(i as int)),
            well_ordered(out@),
            forall|k: int| 0 <= k < out.len() ==> out[k].0 <= line,
        decreases matches.len() - i,
    {
        let end = matches[i].0;
        while pos < end
            invariant
                bytes@.len() < usize::MAX,
                end <= bytes@.len(),
                pos <= end,
                line == line_at(bytes@, pos as int),
                line <= pos + 1,
                forall|k: int| 0 <= k < out.len() ==> out[k].0 <= line,
            decreases end - pos,
        {
            proof {
                assert(bytes@.take(pos + 1).drop_last() =~= bytes@.take(pos as int));
            }
            if bytes[pos] == 10u8 {
                line = line + 1;
            }
            pos = pos + 1;
        }
        let month = parse_month_name(matches[i].1.as_str());
        let year = parse_year(matches[i].2.as_str());
        let ghost prev = out@;
        proof {
            assert(match_views(matches@).take(i + 1).drop_last() =~= match_views(matches@).take(
                i as int,
            ));
        }
        match (month, year) {
            (Some(m), Some(y)) => {
                out.push((line, Date { year: y, month: m }));
                proof {
                    assert(numbered(out@) =~= numbered(prev).push((line as int, Date { year: y, month: m })));
                }
            },
            _ => {},
        }
        i = i + 1;
    }
    assert(match_views(matches@).take(i as int) =~= match_views(matches@));
    out
}

/// The annotations of one document: for each phrase that `DATE_PATTERN` finds and whose
/// month word and year read, the line where it ends and its date, in text order.
pub fn collect_dates_from_file(text: &str) -> (r: Vec<(usize, Date)>)
    requires
        text.spec_bytes().len() < usize::MAX,
    ensures
        numbered(r@) == annotations(text.spec_bytes(), date_phrase_matches(text@)),
        well_ordered(r@),
{
    let matches = find_phrases(DATE_PATTERN, text);
    dates_from_matches(text, &matches)
}

} // verus!
