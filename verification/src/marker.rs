//! The season/episode marker of a file name.
//!
//! A marker is the letter `S`, a run of decimal digits, the letter `E` and
//! a second run of decimal digits, as in `S02E05`. Both runs are taken as long
//! as they go, and the marker counts only when the season fits in 16 bits and
//! the episode number in 8. The marker of a name is the leftmost one.

use vstd::prelude::*;
use crate::text::to_chars;

verus! {

/// Largest season a marker can carry.
pub const MAX_SEASON: u32 = 65535;

/// Largest episode number a marker can carry.
pub const MAX_NUMBER: u32 = 255;

/// Whether `c` is one of the ten decimal digits of ASCII.
pub open spec fn is_digit(c: char) -> bool {
    '0' <= c <= '9'
}

/// The number that the digit `c` writes.
pub open spec fn digit_value(c: char) -> nat {
    (c as int - '0' as int) as nat
}

/// The number that a run of decimal digits writes; leading zeros do not count.
pub open spec fn decimal(digits: Seq<char>) -> nat
    decreases digits.len(),
{
    if digits.len() == 0 {
        0
    } else {
        decimal(digits.drop_last()) * 10 + digit_value(digits.last())
    }
}

/// The position just behind the longest run of digits that starts at `from`.
pub open spec fn digits_end(s: Seq<char>, from: int) -> int
    decreases s.len() - from,
{
    if 0 <= from < s.len() && is_digit(s[from]) {
        digits_end(s, from + 1)
    } else {
        from
    }
}

/// The number written by the longest run of digits that starts at `from`.
pub open spec fn number_at(s: Seq<char>, from: int) -> nat {
    decimal(s.subrange(from, digits_end(s, from)))
}

/// The marker that starts exactly at position `at`, if one does.
pub open spec fn marker_at(s: Seq<char>, at: int) -> Option<(u16, u8)> {
    let season_end = digits_end(s, at + 1);
    let number_end = digits_end(s, season_end + 1);
    if 0 <= at < s.len() && s[at] == 'S' && at + 1 < season_end && season_end < s.len()
        && s[season_end] == 'E' && season_end + 1 < number_end && number_at(s, at + 1)
        <= MAX_SEASON && number_at(s, season_end + 1) <= MAX_NUMBER {
        Some((number_at(s, at + 1) as u16, number_at(s, season_end + 1) as u8))
    } else {
        None
    }
}

/// The leftmost marker that starts at `from` or later.
pub open spec fn first_marker_from(s: Seq<char>, from: int) -> Option<(u16, u8)>
    decreases s.len() - from,
{
    if from < 0 || from >= s.len() {
        None
    } else if marker_at(s, from) is Some {
        marker_at(s, from)
    } else {
        first_marker_from(s, from + 1)
    }
}

/// The marker of a name: its leftmost one.
pub open spec fn first_marker(s: Seq<char>) -> Option<(u16, u8)> {
    first_marker_from(s, 0)
}

/// A run of digits ends inside the text, at a character that is no digit, and
/// holds digits only.
pub proof fn lemma_digits_end(s: Seq<char>, from: int)
    requires
        0 <= from <= s.len(),
    ensures
        from <= digits_end(s, from) <= s.len(),
        forall|k: int| from <= k < digits_end(s, from) ==> is_digit(#[trigger] s[k]),
        digits_end(s, from) < s.len() ==> !is_digit(s[digits_end(s, from)]),
    decreases s.len() - from,
{
    if from < s.len() && is_digit(s[from]) {
        lemma_digits_end(s, from + 1);
    }
}

/// A run that holds digits only and is followed by none is the longest one.
pub proof fn lemma_digits_end_unique(s: Seq<char>, from: int, end: int)
    requires
        0 <= from <= end <= s.len(),
        forall|k: int| from <= k < end ==> is_digit(#[trigger] s[k]),
        end < s.len() ==> !is_digit(s[end]),
    ensures
        digits_end(s, from) == end,
    decreases end - from,
{
    if from < end {
        lemma_digits_end_unique(s, from + 1, end);
    }
}

/// What the leftmost marker is, said without recursion: nothing, where no
/// position holds a marker; else the marker at the first position that holds one.
pub proof fn lemma_first_marker_from(s: Seq<char>, from: int)
    requires
        0 <= from,
    ensures
        first_marker_from(s, from) is None <==> forall|k: int|
            from <= k < s.len() ==> #[trigger] marker_at(s, k) is None,
        first_marker_from(s, from) is Some ==> exists|at: int|
            from <= at < s.len() && #[trigger] marker_at(s, at) == first_marker_from(s, from)
                && forall|k: int| from <= k < at ==> #[trigger] marker_at(s, k) is None,
    decreases s.len() - from,
{
    if from < s.len() {
        if marker_at(s, from) is Some {
            assert(marker_at(s, from) == first_marker_from(s, from));
        } else {
            lemma_first_marker_from(s, from + 1);
            if first_marker_from(s, from) is Some {
                let at = choose|at: int|
                    from + 1 <= at < s.len() && #[trigger] marker_at(s, at) == first_marker_from(
                        s,
                        from + 1,
                    ) && forall|k: int| from + 1 <= k < at ==> #[trigger] marker_at(s, k) is None;
                assert(marker_at(s, at) == first_marker_from(s, from));
                assert forall|k: int| from <= k < at implies #[trigger] marker_at(s, k) is None by {
                    if k > from {
                    }
                }
            } else {
                assert forall|k: int| from <= k < s.len() implies #[trigger] marker_at(
                    s,
                    k,
                ) is None by {
                    if k > from {
                    }
                }
            }
        }
    }
}

/// A name whose leftmost marker stands at `at` yields that marker, and a name
/// without any marker yields nothing.
pub proof fn lemma_first_marker(s: Seq<char>, at: int)
    ensures
        (0 <= at < s.len() && marker_at(s, at) is Some && forall|k: int|
            0 <= k < at ==> #[trigger] marker_at(s, k) is None) ==> first_marker(s) == marker_at(
            s,
            at,
        ),
        (forall|k: int| 0 <= k < s.len() ==> #[trigger] marker_at(s, k) is None) ==> first_marker(
            s,
        ) is None,
{
    lemma_first_marker_from(s, 0);
    if 0 <= at < s.len() && marker_at(s, at) is Some && forall|k: int|
        0 <= k < at ==> #[trigger] marker_at(s, k) is None {
        let found = choose|found: int|
            0 <= found < s.len() && #[trigger] marker_at(s, found) == first_marker_from(s, 0)
                && forall|k: int| 0 <= k < found ==> #[trigger] marker_at(s, k) is None;
        assert(found == at);
    }
}

/// Whether `digits` holds decimal digits only.
pub open spec fn all_digits(digits: Seq<char>) -> bool {
    forall|k: int| 0 <= k < digits.len() ==> is_digit(#[trigger] digits[k])
}

/// A marker that is written out is read back: in a name made of any text,
/// `S`, the digits of a season, `E`, the digits of a number, and a rest that
/// does not go on with a digit, the marker at the `S` carries that season and
/// that number, provided they fit. It is the marker of the name where none
/// starts further left.
pub proof fn lemma_marker_read_back(
    before: Seq<char>,
    season: Seq<char>,
    number: Seq<char>,
    after: Seq<char>,
)
    requires
        season.len() > 0,
        number.len() > 0,
        all_digits(season),
        all_digits(number),
        decimal(season) <= MAX_SEASON,
        decimal(number) <= MAX_NUMBER,
        after.len() > 0 ==> !is_digit(after[0]),
    ensures
        ({
            let name = before + seq!['S'] + season + seq!['E'] + number + after;
            let found = Some((decimal(season) as u16, decimal(number) as u8));
            &&& marker_at(name, before.len() as int) == found
            &&& (forall|k: int| 0 <= k < before.len() ==> #[trigger] marker_at(name, k) is None)
                ==> first_marker(name) == found
        }),
{
    let name = before + seq!['S'] + season + seq!['E'] + number + after;
    let at = before.len() as int;
    let season_end = at + 1 + season.len();
    let number_end = season_end + 1 + number.len();
    assert(name[at] == 'S');
    assert(name[season_end] == 'E');
    assert forall|k: int| at + 1 <= k < season_end implies is_digit(#[trigger] name[k]) by {
        assert(name[k] == season[k - at - 1]);
    }
    assert forall|k: int| season_end + 1 <= k < number_end implies is_digit(#[trigger] name[k]) by {
        assert(name[k] == number[k - season_end - 1]);
    }
    if number_end < name.len() {
        assert(name[number_end] == after[0]);
    }
    lemma_digits_end_unique(name, at + 1, season_end);
    lemma_digits_end_unique(name, season_end + 1, number_end);
    assert(name.subrange(at + 1, season_end) =~= season);
    assert(name.subrange(season_end + 1, number_end) =~= number);
    lemma_first_marker(name, at);
}

/// Reads the longest run of digits at `from`. Returns where it ends and the
/// number it writes, or no number where that exceeds `limit`.
fn scan_number(s: &Vec<char>, from: usize, limit: u32) -> (r: (usize, Option<u32>))
    requires
        from <= s.len(),
        limit <= MAX_SEASON,
    ensures
        r.0 == digits_end(s@, from as int),
        r.1 == if number_at(s@, from as int) <= limit {
            Some(number_at(s@, from as int) as u32)
        } else {
            None::<u32>
        },
{
    let mut end: usize = from;
    let mut value: u32 = 0;
    let mut fits: bool = true;
    while end < s.len() && s[end] >= '0' && s[end] <= '9'
        invariant
            from <= end <= s.len(),
            limit <= MAX_SEASON,
            forall|k: int| from <= k < end ==> is_digit(#[trigger] s@[k]),
            fits ==> value == decimal(s@.subrange(from as int, end as int)) && value <= limit,
            !fits ==> decimal(s@.subrange(from as int, end as int)) > limit,
        decreases s.len() - end,
    {
        let digit: u32 = s[end] as u32 - '0' as u32;
        proof {
            let longer = s@.subrange(from as int, end + 1);
            assert(longer.drop_last() =~= s@.subrange(from as int, end as int));
            assert(longer.last() == s@[end as int]);
            assert(digit == digit_value(s@[end as int]));
        }
        if fits {
            let next: u32 = value * 10 + digit;
            if next > limit {
                fits = false;
            } else {
                value = next;
            }
        }
        end = end + 1;
    }
    proof {
        lemma_digits_end_unique(s@, from as int, end as int);
    }
    if fits {
        (end, Some(value))
    } else {
        (end, None)
    }
}

/// The marker that starts exactly at position `at`, if one does.
fn marker_here(s: &Vec<char>, at: usize) -> (r: Option<(u16, u8)>)
    requires
        at < s.len(),
    ensures
        r == marker_at(s@, at as int),
{
    if s[at] != 'S' {
        return None;
    }
    let (season_end, season) = scan_number(s, at + 1, MAX_SEASON);
    proof {
        lemma_digits_end(s@, at + 1);
    }
    if season_end == at + 1 || season_end >= s.len() || s[season_end] != 'E' {
        return None;
    }
    let (number_end, number) = scan_number(s, season_end + 1, MAX_NUMBER);
    proof {
        lemma_digits_end(s@, season_end + 1);
    }
    if number_end == season_end + 1 {
        return None;
    }
    match (season, number) {
        (Some(season), Some(number)) => Some((season as u16, number as u8)),
        _ => None,
    }
}

/// The marker of the characters `s`: the leftmost one, if there is any.
pub fn parse_marker(s: &Vec<char>) -> (r: Option<(u16, u8)>)
    ensures
        r == first_marker(s@),
{
    let mut at: usize = 0;
    while at < s.len()
        invariant
            at <= s.len(),
            first_marker(s@) == first_marker_from(s@, at as int),
        decreases s.len() - at,
    {
        let found = marker_here(s, at);
        if found.is_some() {
            return found;
        }
        at = at + 1;
    }
    None
}

/// The season and episode number that the file name `name` carries: those of
/// its leftmost marker. A name without a marker carries none.
pub fn parse_episode(name: &str) -> (r: Option<(u16, u8)>)
    ensures
        r == first_marker(name@),
{
    let chars = to_chars(name);
    parse_marker(&chars)
}

/// The character that writes the digit `d`.
pub open spec fn digit_char(d: nat) -> char {
    if d == 0 {
        '0'
    } else if d == 1 {
        '1'
    } else if d == 2 {
        '2'
    } else if d == 3 {
        '3'
    } else if d == 4 {
        '4'
    } else if d == 5 {
        '5'
    } else if d == 6 {
        '6'
    } else if d == 7 {
        '7'
    } else if d == 8 {
        '8'
    } else {
        '9'
    }
}

/// The decimal digits of `n`, without leading zeros.
pub open spec fn digits_of(n: nat) -> Seq<char>
    decreases n,
{
    if n < 10 {
        seq![digit_char(n)]
    } else {
        digits_of(n / 10).push(digit_char(n % 10))
    }
}

/// The decimal digits of `n`, with a leading zero where there would be one
/// digit only.
pub open spec fn two_digits(n: nat) -> Seq<char> {
    if n < 10 {
        seq!['0'] + digits_of(n)
    } else {
        digits_of(n)
    }
}

/// How an episode is written in a report: `S`, the season, `E`, the number,
/// each with two digits at least, as in `S02E05`.
pub open spec fn label(season: u16, number: u8) -> Seq<char> {
    seq!['S'] + two_digits(season as nat) + seq!['E'] + two_digits(number as nat)
}

/// The digits of a number are digits, and they write that number.
pub proof fn lemma_digits_of(n: nat)
    ensures
        digits_of(n).len() > 0,
        all_digits(digits_of(n)),
        decimal(digits_of(n)) == n,
    decreases n,
{
    let digits = digits_of(n);
    assert(digit_value(digit_char(n % 10)) == n % 10);
    assert(digits.last() == digit_char(n % 10));
    if n >= 10 {
        lemma_digits_of(n / 10);
        assert(digits.drop_last() =~= digits_of(n / 10));
    } else {
        assert(digits.drop_last() =~= Seq::<char>::empty());
        assert(decimal(digits.drop_last()) == 0);
    }
}

/// Two digits at least are digits too, and write the same number.
pub proof fn lemma_two_digits(n: nat)
    ensures
        two_digits(n).len() > 0,
        all_digits(two_digits(n)),
        decimal(two_digits(n)) == n,
{
    lemma_digits_of(n);
    if n < 10 {
        let padded = two_digits(n);
        assert(padded.drop_last() =~= seq!['0']);
        assert(padded.last() == digit_char(n));
        assert(digit_value(digit_char(n)) == n);
        assert(seq!['0'].drop_last() =~= Seq::<char>::empty());
        assert(decimal(seq!['0'].drop_last()) == 0);
        assert(decimal(seq!['0']) == 0);
    }
}

/// The marker of a label is the episode that the label was written for.
pub proof fn lemma_label_read_back(season: u16, number: u8)
    ensures
        first_marker(label(season, number)) == Some((season, number)),
{
    lemma_two_digits(season as nat);
    lemma_two_digits(number as nat);
    let none = Seq::<char>::empty();
    lemma_marker_read_back(none, two_digits(season as nat), two_digits(number as nat), none);
    assert(none + seq!['S'] + two_digits(season as nat) + seq!['E'] + two_digits(number as nat)
        + none =~= label(season, number));
}

/// The text that writes the digit `d`.
fn digit_text(d: u32) -> (text: &'static str)
    requires
        d < 10,
    ensures
        text@ == seq![digit_char(d as nat)],
{
    proof {
        reveal_strlit("0");
        reveal_strlit("1");
        reveal_strlit("2");
        reveal_strlit("3");
        reveal_strlit("4");
        reveal_strlit("5");
        reveal_strlit("6");
        reveal_strlit("7");
        reveal_strlit("8");
        reveal_strlit("9");
    }
    let text = match d {
        0 => "0",
        1 => "1",
        2 => "2",
        3 => "3",
        4 => "4",
        5 => "5",
        6 => "6",
        7 => "7",
        8 => "8",
        _ => "9",
    };
    proof {
        assert(text@ =~= seq![digit_char(d as nat)]);
    }
    text
}

/// Appends the decimal digits of `n` to `out`.
fn append_digits(out: &mut String, n: u32)
    ensures
        final(out)@ == old(out)@ + digits_of(n as nat),
    decreases n,
{
    if n >= 10 {
        append_digits(out, n / 10);
    }
    out.append(digit_text(n % 10));
    proof {
        if n >= 10 {
            assert(final(out)@ =~= old(out)@ + digits_of(n as nat));
        }
    }
}

/// Appends the decimal digits of `n` to `out`, two at least.
fn append_two_digits(out: &mut String, n: u32)
    ensures
        final(out)@ == old(out)@ + two_digits(n as nat),
{
    if n < 10 {
        out.append(digit_text(0));
    }
    append_digits(out, n);
    proof {
        assert(final(out)@ =~= old(out)@ + two_digits(n as nat));
    }
}

/// Appends to `out` how the episode is written in a report.
pub fn append_label(out: &mut String, season: u16, number: u8)
    ensures
        final(out)@ == old(out)@ + label(season, number),
{
    proof {
        reveal_strlit("S");
        reveal_strlit("E");
    }
    out.append("S");
    append_two_digits(out, season as u32);
    out.append("E");
    append_two_digits(out, number as u32);
    proof {
        assert(final(out)@ =~= old(out)@ + label(season, number));
    }
}

/// How the episode is written in a report, as in `S02E05`.
pub fn episode_label(season: u16, number: u8) -> (text: String)
    ensures
        text@ == label(season, number),
{
    let mut text = String::new();
    append_label(&mut text, season, number);
    proof {
        assert(text@ =~= label(season, number));
    }
    text
}

} // verus!
