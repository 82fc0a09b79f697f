//! A partially-known historical timestamp: era, millennium, and ever finer
//! components down to the minute, each optional past the millennium. It
//! serializes to a compact text form — sign, four digit-or-star symbols,
//! then `-MM`, `-DD`, ` HH`, `:MM` groups as far as they are known — and
//! parses back from it.

use vstd::prelude::*;

verus! {

/// A point (or span) of historical time, as precise as it is known.
#[derive(Clone, Copy, Debug, Hash, PartialEq, Eq, Structural)]
pub struct TimeStamp {
    pub millenium: u32,
    pub century: Option<u32>,
    pub decade: Option<u32>,
    pub year: Option<u32>,
    pub month: Option<u32>,
    pub day: Option<u32>,
    pub hour: Option<u32>,
    pub minute: Option<u32>,
    pub after_christ: bool,
}

/// The numeric value of a decimal digit character, or -1 for any other.
pub open spec fn digit_val(c: char) -> int {
    if c == '0' {
        0
    } else if c == '1' {
        1
    } else if c == '2' {
        2
    } else if c == '3' {
        3
    } else if c == '4' {
        4
    } else if c == '5' {
        5
    } else if c == '6' {
        6
    } else if c == '7' {
        7
    } else if c == '8' {
        8
    } else if c == '9' {
        9
    } else {
        -1
    }
}

/// The character for a decimal digit (meaningful for 0 through 9).
pub open spec fn digit_char(d: int) -> char {
    if d == 0 {
        '0'
    } else if d == 1 {
        '1'
    } else if d == 2 {
        '2'
    } else if d == 3 {
        '3'
    } else if d == 4 {
        '4'
    } else if d == 5 {
        '5'
    } else if d == 6 {
        '6'
    } else if d == 7 {
        '7'
    } else if d == 8 {
        '8'
    } else {
        '9'
    }
}

/// A known digit prints as itself, an unknown one as `*`.
pub open spec fn opt_digit_seq(x: Option<u32>) -> Seq<char> {
    match x {
        Some(d) => seq![digit_char(d as int)],
        None => seq!['*'],
    }
}

/// A two-digit, zero-padded number.
pub open spec fn two_digit_seq(x: int) -> Seq<char> {
    seq![digit_char(x / 10), digit_char(x % 10)]
}

/// All components a timestamp can hold stay in their printable ranges:
/// single digits down to the year, two digits for month through minute,
/// and components are known only as far as their coarser neighbours are.
pub open spec fn ts_wf(ts: TimeStamp) -> bool {
    &&& ts.millenium <= 9
    &&& (ts.century matches Some(c) ==> c <= 9)
    &&& (ts.decade matches Some(d) ==> d <= 9)
    &&& (ts.year matches Some(y) ==> y <= 9)
    &&& (ts.month matches Some(m) ==> m <= 99)
    &&& (ts.day matches Some(d) ==> d <= 99)
    &&& (ts.hour matches Some(h) ==> h <= 99)
    &&& (ts.minute matches Some(m) ==> m <= 99)
}

/// The exact serialized text of a timestamp: an era sign (`-` before
/// Christ, nothing after), the four head symbols, then each finer group
/// as far as it is known.
pub open spec fn serialize_spec(ts: TimeStamp) -> Seq<char> {
    let sign: Seq<char> = if ts.after_christ {
        Seq::empty()
    } else {
        seq!['-']
    };
    let head = sign + seq![digit_char(ts.millenium as int)] + opt_digit_seq(ts.century)
        + opt_digit_seq(ts.decade) + opt_digit_seq(ts.year);
    match ts.month {
        None => head,
        Some(m) => {
            let with_month = head + seq!['-'] + two_digit_seq(m as int);
            match ts.day {
                None => with_month,
                Some(d) => {
                    let with_day = with_month + seq!['-'] + two_digit_seq(d as int);
                    match ts.hour {
                        None => with_day,
                        Some(h) => {
                            let with_hour = with_day + seq![' '] + two_digit_seq(h as int);
                            match ts.minute {
                                None => with_hour,
                                Some(mi) => with_hour + seq![':'] + two_digit_seq(mi as int),
                            }
                        },
                    }
                },
            }
        },
    }
}

/// Whether a character can stand in a head slot: a digit or `*`.
pub open spec fn star_ok(c: char) -> bool {
    c == '*' || digit_val(c) >= 0
}

/// The head-slot value: `*` means unknown, a digit means itself.
pub open spec fn star_val(c: char) -> Option<u32> {
    if c == '*' {
        None
    } else {
        Some(digit_val(c) as u32)
    }
}

/// Whether a character separates the date groups.
pub open spec fn is_sep(c: char) -> bool {
    c == '-' || c == ' '
}

/// The value of the two digit characters at `i`, or -1 where either is
/// missing or not a digit.
pub open spec fn parse_two(s: Seq<char>, i: int) -> int {
    if i + 2 <= s.len() && digit_val(s[i]) >= 0 && digit_val(s[i + 1]) >= 0 {
        digit_val(s[i]) * 10 + digit_val(s[i + 1])
    } else {
        -1
    }
}

/// Parses the minute group at `i`: either the string ends here, or a `:`
/// and two digits follow; anything after them is ignored.
pub open spec fn parse_minute_at(s: Seq<char>, i: int, ts: TimeStamp) -> Option<TimeStamp> {
    if i >= s.len() {
        Some(ts)
    } else if s[i] != ':' {
        None
    } else if parse_two(s, i + 1) < 0 {
        None
    } else {
        Some(TimeStamp { minute: Some(parse_two(s, i + 1) as u32), ..ts })
    }
}

/// Parses the hour group at `i`: end of string, or a separator and two
/// digits, then the minute group.
pub open spec fn parse_hour_at(s: Seq<char>, i: int, ts: TimeStamp) -> Option<TimeStamp> {
    if i >= s.len() {
        Some(ts)
    } else if !is_sep(s[i]) {
        None
    } else if parse_two(s, i + 1) < 0 {
        None
    } else {
        parse_minute_at(s, i + 3, TimeStamp { hour: Some(parse_two(s, i + 1) as u32), ..ts })
    }
}

/// Parses the day group at `i`, then the hour group.
pub open spec fn parse_day_at(s: Seq<char>, i: int, ts: TimeStamp) -> Option<TimeStamp> {
    if i >= s.len() {
        Some(ts)
    } else if !is_sep(s[i]) {
        None
    } else if parse_two(s, i + 1) < 0 {
        None
    } else {
        parse_hour_at(s, i + 3, TimeStamp { day: Some(parse_two(s, i + 1) as u32), ..ts })
    }
}

/// Parses the month group at `i`, then the day group.
pub open spec fn parse_month_at(s: Seq<char>, i: int, ts: TimeStamp) -> Option<TimeStamp> {
    if i >= s.len() {
        Some(ts)
    } else if !is_sep(s[i]) {
        None
    } else if parse_two(s, i + 1) < 0 {
        None
    } else {
        parse_day_at(s, i + 3, TimeStamp { month: Some(parse_two(s, i + 1) as u32), ..ts })
    }
}

/// Parses the four head symbols at `i` — a millennium digit and three
/// digit-or-star slots — then the month group.
pub open spec fn parse_head_at(s: Seq<char>, i: int, ac: bool) -> Option<TimeStamp> {
    if i + 4 > s.len() {
        None
    } else if digit_val(s[i]) < 0 {
        None
    } else if !star_ok(s[i + 1]) || !star_ok(s[i + 2]) || !star_ok(s[i + 3]) {
        None
    } else {
        let base = TimeStamp {
            millenium: digit_val(s[i]) as u32,
            century: star_val(s[i + 1]),
            decade: star_val(s[i + 2]),
            year: star_val(s[i + 3]),
            month: None,
            day: None,
            hour: None,
            minute: None,
            after_christ: ac,
        };
        parse_month_at(s, i + 4, base)
    }
}

/// What `from_string` accepts and yields: an optional era sign (`-` for
/// before Christ, `+` or none for after), the four head symbols, then
/// month, day, hour and minute groups as far as they are present.
pub open spec fn from_string_spec(s: Seq<char>) -> Option<TimeStamp> {
    if s.len() == 0 {
        None
    } else {
        let ac = s[0] != '-';
        let off: int = if s[0] == '+' || s[0] == '-' {
            1
        } else {
            0
        };
        parse_head_at(s, off, ac)
    }
}

/// Reading a digit character back gives the digit.
proof fn lemma_digit_round_trip(d: int)
    requires
        0 <= d <= 9,
    ensures
        digit_val(digit_char(d)) == d,
        !is_sep(digit_char(d)),
        digit_char(d) != '+' && digit_char(d) != '*' && digit_char(d) != ':',
        star_ok(digit_char(d)),
        star_val(digit_char(d)) == Some(d as u32),
{
}

/// Reading a two-digit group back gives the number.
proof fn lemma_two_digit_round_trip(s: Seq<char>, i: int, x: int)
    requires
        0 <= x <= 99,
        0 <= i,
        i + 2 <= s.len(),
        s[i] == digit_char(x / 10),
        s[i + 1] == digit_char(x % 10),
    ensures
        parse_two(s, i) == x,
{
    lemma_digit_round_trip(x / 10);
    lemma_digit_round_trip(x % 10);
}

/// A head slot prints to one symbol that reads back as the same value.
proof fn lemma_head_slot(x: Option<u32>)
    requires
        (x matches Some(d) ==> d <= 9),
    ensures
        opt_digit_seq(x).len() == 1,
        star_ok(opt_digit_seq(x)[0]),
        star_val(opt_digit_seq(x)[0]) == x,
        opt_digit_seq(x)[0] != '-' && opt_digit_seq(x)[0] != ' ' && opt_digit_seq(x)[0] != ':',
{
    match x {
        Some(d) => {
            lemma_digit_round_trip(d as int);
        },
        None => {},
    }
}

/// Components are known coarse to fine: a day only under a known month,
/// and so on down to the minute.
pub open spec fn components_ordered(ts: TimeStamp) -> bool {
    &&& (ts.day is Some ==> ts.month is Some)
    &&& (ts.hour is Some ==> ts.day is Some)
    &&& (ts.minute is Some ==> ts.hour is Some)
}

/// The timestamp with everything below the year stripped off.
pub open spec fn head_only(ts: TimeStamp) -> TimeStamp {
    TimeStamp { month: None, day: None, hour: None, minute: None, ..ts }
}

/// Where each symbol of the serialized text sits, relative to the sign
/// offset `off`: the four head symbols, then each known group at its
/// fixed place, and the text ending right after the finest known one.
spec fn serialized_layout(ts: TimeStamp, s: Seq<char>, off: int) -> bool {
    &&& s.len() >= off + 4 && off >= 0
    &&& (!ts.after_christ ==> s[0] == '-')
    &&& (ts.after_christ ==> s[0] == digit_char(ts.millenium as int))
    &&& digit_val(s[off]) == ts.millenium as int
    &&& star_ok(s[off + 1]) && star_val(s[off + 1]) == ts.century
    &&& star_ok(s[off + 2]) && star_val(s[off + 2]) == ts.decade
    &&& star_ok(s[off + 3]) && star_val(s[off + 3]) == ts.year
    &&& (ts.month matches Some(m) ==> s.len() >= off + 7 && is_sep(s[off + 4]) && parse_two(s, off + 5) == m)
    &&& (ts.month is None ==> s.len() == off + 4)
    &&& (ts.day matches Some(d) ==> s.len() >= off + 10 && is_sep(s[off + 7]) && parse_two(s, off + 8) == d)
    &&& (ts.month is Some && ts.day is None ==> s.len() == off + 7)
    &&& (ts.hour matches Some(h) ==> s.len() >= off + 13 && is_sep(s[off + 10]) && parse_two(s, off + 11) == h)
    &&& (ts.day is Some && ts.hour is None ==> s.len() == off + 10)
    &&& (ts.minute matches Some(mi) ==> s.len() == off + 16 && s[off + 13] == ':' && parse_two(s, off + 14) == mi)
    &&& (ts.hour is Some && ts.minute is None ==> s.len() == off + 13)
}

/// Chains the stage parsers over a text whose layout is established.
proof fn finish_round_trip(ts: TimeStamp, s: Seq<char>, off: int)
    requires
        ts_wf(ts),
        components_ordered(ts),
        off == (if ts.after_christ { 0int } else { 1int }),
        serialized_layout(ts, s, off),
    ensures
        from_string_spec(s) == Some(ts),
{
    let base = head_only(ts);
    lemma_digit_round_trip(ts.millenium as int);
    if ts.after_christ {
        assert(s[0] != '-' && s[0] != '+');
    }
    assert(from_string_spec(s) == parse_head_at(s, off, ts.after_christ));
    assert(parse_head_at(s, off, ts.after_christ) == parse_month_at(s, off + 4, base));
    match ts.month {
        None => {
            assert(parse_month_at(s, off + 4, base) == Some(base));
            assert(base == ts);
        },
        Some(m) => {
            let base_m = TimeStamp { month: Some(m), ..base };
            assert(parse_month_at(s, off + 4, base) == parse_day_at(s, off + 7, base_m));
            match ts.day {
                None => {
                    assert(parse_day_at(s, off + 7, base_m) == Some(base_m));
                    assert(base_m == ts);
                },
                Some(d) => {
                    let base_d = TimeStamp { day: Some(d), ..base_m };
                    assert(parse_day_at(s, off + 7, base_m) == parse_hour_at(
                        s,
                        off + 10,
                        base_d,
                    ));
                    match ts.hour {
                        None => {
                            assert(parse_hour_at(s, off + 10, base_d) == Some(base_d));
                            assert(base_d == ts);
                        },
                        Some(h) => {
                            let base_h = TimeStamp { hour: Some(h), ..base_d };
                            assert(parse_hour_at(s, off + 10, base_d) == parse_minute_at(
                                s,
                                off + 13,
                                base_h,
                            ));
                            match ts.minute {
                                None => {
                                    assert(parse_minute_at(s, off + 13, base_h) == Some(base_h));
                                    assert(base_h == ts);
                                },
                                Some(mi) => {
                                    assert(parse_minute_at(s, off + 13, base_h) == Some(
                                        TimeStamp { minute: Some(mi), ..base_h },
                                    ));
                                    assert(TimeStamp { minute: Some(mi), ..base_h } == ts);
                                },
                            }
                        },
                    }
                },
            }
        },
    }
}

/// Parsing undoes serializing: the compact text of any well-formed
/// timestamp whose components are known coarse to fine reads back as
/// exactly that timestamp.
pub proof fn lemma_serialize_round_trip(ts: TimeStamp)
    requires
        ts_wf(ts),
        components_ordered(ts),
    ensures
        from_string_spec(serialize_spec(ts)) == Some(ts),
{
    let s = serialize_spec(ts);
    let sign: Seq<char> = if ts.after_christ {
        Seq::empty()
    } else {
        seq!['-']
    };
    let off = sign.len() as int;
    let head = sign + seq![digit_char(ts.millenium as int)] + opt_digit_seq(ts.century)
        + opt_digit_seq(ts.decade) + opt_digit_seq(ts.year);
    assert(head.len() == off + 4);
    lemma_digit_round_trip(ts.millenium as int);
    lemma_head_slot(ts.century);
    lemma_head_slot(ts.decade);
    lemma_head_slot(ts.year);
    assert(head[off] == digit_char(ts.millenium as int));
    assert(head[off + 1] == opt_digit_seq(ts.century)[0]);
    assert(head[off + 2] == opt_digit_seq(ts.decade)[0]);
    assert(head[off + 3] == opt_digit_seq(ts.year)[0]);
    match ts.month {
        None => {
            assert(s == head);
            finish_round_trip(ts, s, off);
        },
        Some(m) => {
            let with_month = head + seq!['-'] + two_digit_seq(m as int);
            lemma_digit_round_trip(m as int / 10);
            lemma_digit_round_trip(m as int % 10);
            assert(with_month[off + 4] == '-');
            assert(with_month[off + 5] == digit_char(m as int / 10));
            assert(with_month[off + 6] == digit_char(m as int % 10));
            match ts.day {
                None => {
                    assert(s == with_month);
                    lemma_two_digit_round_trip(s, off + 5, m as int);
                    finish_round_trip(ts, s, off);
                },
                Some(d) => {
                    let with_day = with_month + seq!['-'] + two_digit_seq(d as int);
                    lemma_digit_round_trip(d as int / 10);
                    lemma_digit_round_trip(d as int % 10);
                    assert(with_day[off + 4] == '-');
                    assert(with_day[off + 5] == digit_char(m as int / 10));
                    assert(with_day[off + 6] == digit_char(m as int % 10));
                    assert(with_day[off + 7] == '-');
                    assert(with_day[off + 8] == digit_char(d as int / 10));
                    assert(with_day[off + 9] == digit_char(d as int % 10));
                    match ts.hour {
                        None => {
                            assert(s == with_day);
                            lemma_two_digit_round_trip(s, off + 5, m as int);
                            lemma_two_digit_round_trip(s, off + 8, d as int);
                            finish_round_trip(ts, s, off);
                        },
                        Some(h) => {
                            let with_hour = with_day + seq![' '] + two_digit_seq(h as int);
                            lemma_digit_round_trip(h as int / 10);
                            lemma_digit_round_trip(h as int % 10);
                            assert(with_hour[off + 4] == '-');
                            assert(with_hour[off + 5] == digit_char(m as int / 10));
                            assert(with_hour[off + 6] == digit_char(m as int % 10));
                            assert(with_hour[off + 7] == '-');
                            assert(with_hour[off + 8] == digit_char(d as int / 10));
                            assert(with_hour[off + 9] == digit_char(d as int % 10));
                            assert(with_hour[off + 10] == ' ');
                            assert(with_hour[off + 11] == digit_char(h as int / 10));
                            assert(with_hour[off + 12] == digit_char(h as int % 10));
                            match ts.minute {
                                None => {
                                    assert(s == with_hour);
                                    lemma_two_digit_round_trip(s, off + 5, m as int);
                                    lemma_two_digit_round_trip(s, off + 8, d as int);
                                    lemma_two_digit_round_trip(s, off + 11, h as int);
                                    finish_round_trip(ts, s, off);
                                },
                                Some(mi) => {
                                    assert(s == with_hour + seq![':'] + two_digit_seq(
                                        mi as int,
                                    ));
                                    lemma_digit_round_trip(mi as int / 10);
                                    lemma_digit_round_trip(mi as int % 10);
                                    assert(s[off + 4] == '-');
                                    assert(s[off + 5] == digit_char(m as int / 10));
                                    assert(s[off + 6] == digit_char(m as int % 10));
                                    assert(s[off + 7] == '-');
                                    assert(s[off + 8] == digit_char(d as int / 10));
                                    assert(s[off + 9] == digit_char(d as int % 10));
                                    assert(s[off + 10] == ' ');
                                    assert(s[off + 11] == digit_char(h as int / 10));
                                    assert(s[off + 12] == digit_char(h as int % 10));
                                    assert(s[off + 13] == ':');
                                    assert(s[off + 14] == digit_char(mi as int / 10));
                                    assert(s[off + 15] == digit_char(mi as int % 10));
                                    lemma_two_digit_round_trip(s, off + 5, m as int);
                                    lemma_two_digit_round_trip(s, off + 8, d as int);
                                    lemma_two_digit_round_trip(s, off + 11, h as int);
                                    lemma_two_digit_round_trip(s, off + 14, mi as int);
                                    finish_round_trip(ts, s, off);
                                },
                            }
                        },
                    }
                },
            }
        },
    }
}

/// The numeric value of a digit character, executable.
fn digit_value(c: char) -> (r: Option<u32>)
    ensures
        match r {
            Some(d) => digit_val(c) == d && d <= 9,
            None => digit_val(c) < 0,
        },
{
    match c {
        '0' => Some(0),
        '1' => Some(1),
        '2' => Some(2),
        '3' => Some(3),
        '4' => Some(4),
        '5' => Some(5),
        '6' => Some(6),
        '7' => Some(7),
        '8' => Some(8),
        '9' => Some(9),
        _ => None,
    }
}

/// The head-slot value of a character, executable: rejected, unknown, or
/// a digit.
fn star_value(c: char) -> (r: Option<Option<u32>>)
    ensures
        match r {
            Some(v) => star_ok(c) && v == star_val(c) && (v matches Some(d) ==> d <= 9),
            None => !star_ok(c),
        },
{
    if c == '*' {
        Some(None)
    } else {
        match digit_value(c) {
            Some(d) => Some(Some(d)),
            None => None,
        }
    }
}

/// The two-digit number at `i`, executable.
fn two_digits_at(s: &str, i: usize) -> (r: Option<u32>)
    requires
        i + 2 <= s@.len(),
        i <= usize::MAX - 2,
    ensures
        match r {
            Some(v) => parse_two(s@, i as int) == v && v <= 99,
            None => parse_two(s@, i as int) < 0,
        },
{
    let c1 = s.get_char(i);
    let c2 = s.get_char(i + 1);
    match (digit_value(c1), digit_value(c2)) {
        (Some(d1), Some(d2)) => Some(d1 * 10 + d2),
        _ => None,
    }
}

/// Appends one digit character.
fn push_digit(s: &mut String, d: u32)
    requires
        d <= 9,
    ensures
        final(s)@ == old(s)@ + seq![digit_char(d as int)],
{
    proof {
        reveal_strlit("0");
        reveal_strlit("1");
        reveal_strlit("2");
        reveal_strlit("3");
        reveal_strlit("4");
        reveal_strlit("5");
        reveal_strlit("6");
        reveal_strlit("7");
        reveal_strlit("8");
        reveal_strlit("9");
    }
    match d {
        0 => s.append("0"),
        1 => s.append("1"),
        2 => s.append("2"),
        3 => s.append("3"),
        4 => s.append("4"),
        5 => s.append("5"),
        6 => s.append("6"),
        7 => s.append("7"),
        8 => s.append("8"),
        _ => s.append("9"),
    }
    proof {
        assert(final(s)@ =~= old(s)@ + seq![digit_char(d as int)]);
    }
}

/// Appends a known digit or `*`.
fn push_opt_digit(s: &mut String, x: Option<u32>)
    requires
        x matches Some(d) ==> d <= 9,
    ensures
        final(s)@ == old(s)@ + opt_digit_seq(x),
{
    match x {
        Some(d) => push_digit(s, d),
        None => {
            s.append("*");
            proof {
                reveal_strlit("*");
                assert(final(s)@ =~= old(s)@ + opt_digit_seq(x));
            }
        },
    }
}

/// Appends a two-digit, zero-padded number.
fn push_two_digits(s: &mut String, x: u32)
    requires
        x <= 99,
    ensures
        final(s)@ == old(s)@ + two_digit_seq(x as int),
{
    let ghost before = s@;
    push_digit(s, x / 10);
    push_digit(s, x % 10);
    proof {
        assert(final(s)@ =~= before + two_digit_seq(x as int));
    }
}

impl TimeStamp {
    /// The timestamp's compact text form.
    pub fn serialize(&self) -> (r: String)
        requires
            ts_wf(*self),
        ensures
            r@ == serialize_spec(*self),
    {
        let mut s = String::new();
        if !self.after_christ {
            s.append("-");
            proof {
                reveal_strlit("-");
            }
        }
        push_digit(&mut s, self.millenium);
        push_opt_digit(&mut s, self.century);
        push_opt_digit(&mut s, self.decade);
        push_opt_digit(&mut s, self.year);
        let m = match self.month {
            None => {
                proof {
                    assert(s@ =~= serialize_spec(*self));
                }
                return s;
            },
            Some(m) => m,
        };
        s.append("-");
        proof {
            reveal_strlit("-");
            assert("-"@ =~= seq!['-']);
        }
        push_two_digits(&mut s, m);
        let d = match self.day {
            None => {
                proof {
                    assert(s@ =~= serialize_spec(*self));
                }
                return s;
            },
            Some(d) => d,
        };
        s.append("-");
        push_two_digits(&mut s, d);
        let h = match self.hour {
            None => {
                proof {
                    assert(s@ =~= serialize_spec(*self));
                }
                return s;
            },
            Some(h) => h,
        };
        s.append(" ");
        proof {
            reveal_strlit(" ");
            assert(" "@ =~= seq![' ']);
        }
        push_two_digits(&mut s, h);
        let mi = match self.minute {
            None => {
                proof {
                    assert(s@ =~= serialize_spec(*self));
                }
                return s;
            },
            Some(mi) => mi,
        };
        s.append(":");
        proof {
            reveal_strlit(":");
            assert(":"@ =~= seq![':']);
        }
        push_two_digits(&mut s, mi);
        proof {
            assert(s@ =~= serialize_spec(*self));
        }
        s
    }

    /// Parses the compact text form back into a timestamp; anything
    /// malformed yields nothing.
    pub fn from_string(s: String) -> (r: Option<TimeStamp>)
        ensures
            r == from_string_spec(s@),
            r matches Some(ts) ==> ts_wf(ts),
    {
        let st = s.as_str();
        let n = st.unicode_len();
        if n == 0 {
            return None;
        }
        let c0 = st.get_char(0);
        let ac = c0 != '-';
        let off: usize = if c0 == '+' || c0 == '-' {
            1
        } else {
            0
        };
        if off + 4 > n {
            return None;
        }
        let d0 = match digit_value(st.get_char(off)) {
            Some(d) => d,
            None => {
                return None;
            },
        };
        let century = match star_value(st.get_char(off + 1)) {
            Some(v) => v,
            None => {
                return None;
            },
        };
        let decade = match star_value(st.get_char(off + 2)) {
            Some(v) => v,
            None => {
                return None;
            },
        };
        let year = match star_value(st.get_char(off + 3)) {
            Some(v) => v,
            None => {
                return None;
            },
        };
        let mut ts = TimeStamp {
            millenium: d0,
            century,
            decade,
            year,
            month: None,
            day: None,
            hour: None,
            minute: None,
            after_christ: ac,
        };
        let mut i: usize = off + 4;
        proof {
            assert(from_string_spec(s@) == parse_month_at(s@, i as int, ts));
        }
        // month
        if i >= n {
            return Some(ts);
        }
        let sep = st.get_char(i);
        if !(sep == '-' || sep == ' ') {
            return None;
        }
        if n - i < 3 {
            return None;
        }
        let m = match two_digits_at(st, i + 1) {
            Some(v) => v,
            None => {
                return None;
            },
        };
        ts = TimeStamp { month: Some(m), ..ts };
        i = i + 3;
        proof {
            assert(from_string_spec(s@) == parse_day_at(s@, i as int, ts));
        }
        // day
        if i >= n {
            return Some(ts);
        }
        let sep = st.get_char(i);
        if !(sep == '-' || sep == ' ') {
            return None;
        }
        if n - i < 3 {
            return None;
        }
        let d = match two_digits_at(st, i + 1) {
            Some(v) => v,
            None => {
                return None;
            },
        };
        ts = TimeStamp { day: Some(d), ..ts };
        i = i + 3;
        proof {
            assert(from_string_spec(s@) == parse_hour_at(s@, i as int, ts));
        }
        // hour
        if i >= n {
            return Some(ts);
        }
        let sep = st.get_char(i);
        if !(sep == '-' || sep == ' ') {
            return None;
        }
        if n - i < 3 {
            return None;
        }
        let h = match two_digits_at(st, i + 1) {
            Some(v) => v,
            None => {
                return None;
            },
        };
        ts = TimeStamp { hour: Some(h), ..ts };
        i = i + 3;
        proof {
            assert(from_string_spec(s@) == parse_minute_at(s@, i as int, ts));
        }
        // minute
        if i >= n {
            return Some(ts);
        }
        let sep = st.get_char(i);
        if sep != ':' {
            return None;
        }
        if n - i < 3 {
            return None;
        }
        let mi = match two_digits_at(st, i + 1) {
            Some(v) => v,
            None => {
                return None;
            },
        };
        ts = TimeStamp { minute: Some(mi), ..ts };
        Some(ts)
    }
}

} // verus!
