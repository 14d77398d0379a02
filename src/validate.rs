use vstd::prelude::*;
use crate::building::{Building, AppError, BuildingModel, ErrorModel, Field};

verus! {

/// A Unicode `White_Space` character.
pub open spec fn is_white_space(c: char) -> bool {
    ('\t' <= c && c <= '\r') || c == ' ' || c == '\u{85}' || c == '\u{a0}' || c == '\u{1680}'
        || ('\u{2000}' <= c && c <= '\u{200a}') || c == '\u{2028}' || c == '\u{2029}'
        || c == '\u{202f}' || c == '\u{205f}' || c == '\u{3000}'
}

/// An ASCII letter or digit, whitespace, `!`, `?` or `'`.
pub open spec fn is_plain_char(c: char) -> bool {
    ('A' <= c && c <= 'Z') || ('a' <= c && c <= 'z') || ('0' <= c && c <= '9') || c == '!'
        || c == '?' || c == '\'' || is_white_space(c)
}

/// Non-empty text made of plain characters only.
pub open spec fn is_plain_text(s: Seq<char>) -> bool {
    s.len() > 0 && forall|i: int| 0 <= i < s.len() ==> is_plain_char(#[trigger] s[i])
}

/// Text that a district or street may hold: some character of it is not plain,
/// so that neither an empty text nor an all-plain one qualifies.
pub open spec fn is_local_text(s: Seq<char>) -> bool {
    exists|i: int| 0 <= i < s.len() && !is_plain_char(#[trigger] s[i])
}

/// The pattern whose matches are exactly the plain texts.
pub open spec fn plain_pattern() -> Seq<char> {
    "^[A-Za-z0-9\\s!?']+$"@
}

/// Relies on regex::Regex::new and regex::Regex::is_match. The pattern
/// `^[A-Za-z0-9\s!?']+$` compiles, and in the crate's default Unicode mode `\s`
/// is the `White_Space` property, while `^` and `$` anchor at the ends of the
/// haystack; so a text matches iff it is non-empty and every character of it is
/// an ASCII letter or digit, a `White_Space` character, `!`, `?` or `'`.
#[verifier::external_body]
fn regex_is_match(pattern: &str, text: &str) -> (r: bool)
    requires
        pattern@ == plain_pattern(),
    ensures
        r == is_plain_text(text@),
{
    regex::Regex::new(pattern).unwrap().is_match(text)
}

/// Whether the text may name a district or a street: it holds at least one
/// character other than ASCII letters, digits, whitespace, `!`, `?` and `'`.
pub fn rus_only(input: &str) -> (r: bool)
    ensures
        r == is_local_text(input@),
{
    if input.unicode_len() == 0 {
        return false;
    }
    !regex_is_match("^[A-Za-z0-9\\s!?']+$", input)
}

/// Whether `min <= input <= max`.
pub fn num_between(input: i64, min: i64, max: i64) -> (r: bool)
    ensures
        r == (min <= input && input <= max),
{
    input >= min && input <= max
}

/// Values beyond this bound, in either direction, are reported as the bound
/// with their sign.
pub const NUMBER_CAP: i64 = 10_000_000_000;

pub open spec fn is_digit(c: char) -> bool {
    '0' <= c && c <= '9'
}

/// The value of a sequence of decimal digits.
pub open spec fn digits_value(s: Seq<char>) -> int
    decreases s.len(),
{
    if s.len() == 0 {
        0
    } else {
        digits_value(s.drop_last()) * 10 + (s.last() as int - '0' as int)
    }
}

/// The text starts with a minus sign.
pub open spec fn is_negative(s: Seq<char>) -> bool {
    s.len() > 0 && s[0] == '-'
}

/// The text with one leading sign, `+` or `-`, removed, if it has one.
pub open spec fn unsigned_part(s: Seq<char>) -> Seq<char> {
    if s.len() > 0 && (s[0] == '+' || s[0] == '-') {
        s.drop_first()
    } else {
        s
    }
}

/// A decimal integer: an optional sign and then one or more digits.
pub open spec fn is_numeric(s: Seq<char>) -> bool {
    let d = unsigned_part(s);
    d.len() > 0 && forall|i: int| 0 <= i < d.len() ==> is_digit(#[trigger] d[i])
}

pub open spec fn numeric_value(s: Seq<char>) -> int {
    if is_negative(s) {
        -digits_value(unsigned_part(s))
    } else {
        digits_value(unsigned_part(s))
    }
}

/// The value, held within `-NUMBER_CAP ..= NUMBER_CAP`.
pub open spec fn capped(v: int) -> int {
    if v >= NUMBER_CAP as int {
        NUMBER_CAP as int
    } else if v <= -(NUMBER_CAP as int) {
        -(NUMBER_CAP as int)
    } else {
        v
    }
}

proof fn lemma_digits_value_nonneg(s: Seq<char>)
    requires
        forall|i: int| 0 <= i < s.len() ==> is_digit(#[trigger] s[i]),
    ensures
        digits_value(s) >= 0,
    decreases s.len(),
{
    if s.len() > 0 {
        lemma_digits_value_nonneg(s.drop_last());
    }
}

/// Reads a decimal integer; values beyond the cap in either direction come out
/// as the cap with their sign.
pub fn parse_number(s: &str) -> (r: Option<i64>)
    ensures
        r.is_some() == is_numeric(s@),
        r.is_some() ==> r.unwrap() as int == capped(numeric_value(s@)),
{
    let n = s.unicode_len();
    let mut i: usize = 0;
    let mut negative = false;
    if n > 0 {
        let c0 = s.get_char(0);
        if c0 == '+' || c0 == '-' {
            i = 1;
            negative = c0 == '-';
        }
    }
    assert(negative == is_negative(s@));
    let start = i;
    let ghost d = unsigned_part(s@);
    assert(d =~= s@.subrange(start as int, n as int));
    if i >= n {
        return None;
    }
    let mut v: i64 = 0;
    while i < n
        invariant
            start <= i <= n,
            negative == is_negative(s@),
            n == s@.len(),
            d =~= s@.subrange(start as int, n as int),
            d == unsigned_part(s@),
            forall|k: int| 0 <= k < i - start ==> is_digit(#[trigger] d[k]),
            v as int == capped(digits_value(d.subrange(0, i - start))),
        decreases n - i,
    {
        let c = s.get_char(i);
        if !('0' <= c && c <= '9') {
            assert(!is_digit(d[i - start]));
            return None;
        }
        let dv = (c as u32 - '0' as u32) as i64;
        let ghost pre = d.subrange(0, i - start);
        let ghost next = d.subrange(0, i + 1 - start);
        assert(next.drop_last() =~= pre);
        assert(next.last() == c);
        proof {
            lemma_digits_value_nonneg(pre);
        }
        assert(digits_value(next) == digits_value(pre) * 10 + dv);
        if v >= NUMBER_CAP {
            assert(digits_value(pre) >= NUMBER_CAP);
            assert(digits_value(next) >= NUMBER_CAP) by (nonlinear_arith)
                requires
                    digits_value(next) == digits_value(pre) * 10 + dv,
                    digits_value(pre) >= NUMBER_CAP,
                    dv >= 0,
            ;
        } else {
            v = v * 10 + dv;
            if v > NUMBER_CAP {
                v = NUMBER_CAP;
            }
        }
        i = i + 1;
    }
    assert(d.subrange(0, n - start) =~= d);
    if negative {
        Some(-v)
    } else {
        Some(v)
    }
}

/// The texts of a raw row.
pub open spec fn row_model(row: Seq<String>) -> Seq<Seq<char>> {
    row.map_values(|f: String| f@)
}

/// The outcome of validating one row of four fields (district, street, house
/// number, build year): the fields are checked in that order, and the first
/// failing rule gives the error.
pub open spec fn check_row(row: Seq<Seq<char>>, current_year: int) -> Result<BuildingModel, ErrorModel> {
    if !is_local_text(row[0]) {
        Err(ErrorModel::NotValidValue(Field::Dist, row[0]))
    } else if !is_local_text(row[1]) {
        Err(ErrorModel::NotValidValue(Field::Street, row[1]))
    } else if !is_numeric(row[2]) {
        Err(ErrorModel::NotNumber(Field::Num, row[2]))
    } else if !(1 <= numeric_value(row[2]) <= 255) {
        Err(ErrorModel::NotValidValue(Field::Num, row[2]))
    } else if !is_numeric(row[3]) {
        Err(ErrorModel::NotNumber(Field::Year, row[3]))
    } else if !(1 <= numeric_value(row[3]) <= current_year) {
        Err(ErrorModel::NotValidValue(Field::Year, row[3]))
    } else {
        Ok(
            BuildingModel {
                dist: row[0],
                street: row[1],
                num: numeric_value(row[2]),
                year: numeric_value(row[3]),
            },
        )
    }
}

pub open spec fn building_outcome(r: Result<Building, AppError>) -> Result<BuildingModel, ErrorModel> {
    match r {
        Ok(b) => Ok(b@),
        Err(e) => Err(e@),
    }
}

/// Turns one raw row into a building, or names the first field that breaks a rule.
pub fn validate_row(row: &Vec<String>, current_year: i32) -> (r: Result<Building, AppError>)
    requires
        row@.len() == 4,
    ensures
        building_outcome(r) == check_row(row_model(row@), current_year as int),
{
    let ghost m = row_model(row@);
    assert(m[0] == row@[0]@ && m[1] == row@[1]@ && m[2] == row@[2]@ && m[3] == row@[3]@);
    if !rus_only(row[0].as_str()) {
        return Err(AppError::NotValidValue(Field::Dist, row[0].clone()));
    }
    if !rus_only(row[1].as_str()) {
        return Err(AppError::NotValidValue(Field::Street, row[1].clone()));
    }
    let num = match parse_number(row[2].as_str()) {
        Some(v) => v,
        None => {
            return Err(AppError::NotNumber(Field::Num, row[2].clone()));
        },
    };
    if !num_between(num, 1, 255) {
        return Err(AppError::NotValidValue(Field::Num, row[2].clone()));
    }
    let year = match parse_number(row[3].as_str()) {
        Some(v) => v,
        None => {
            return Err(AppError::NotNumber(Field::Year, row[3].clone()));
        },
    };
    if !num_between(year, 1, current_year as i64) {
        return Err(AppError::NotValidValue(Field::Year, row[3].clone()));
    }
    Ok(Building::new(row[0].clone(), row[1].clone(), num as u8, year as u32))
}

} // verus!
