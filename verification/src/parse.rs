//! Construction of the model from whitespace-separated vehicle records.
//!
//! A record holds five fields separated by runs of whitespace: identifier,
//! column, row, length and an orientation token whose first character is
//! taken as the orientation. Numeric fields are decimal with an optional
//! sign. A malformed record is rejected rather than accepted half-read.

use vstd::prelude::*;

use crate::model::Car;
use crate::state::{CarMove, State};

verus! {

/// Whitespace for the purpose of splitting a record into fields: the Unicode
/// white-space characters.
pub open spec fn is_ws(c: char) -> bool {
    ||| 9 <= c as u32 <= 13
    ||| c as u32 == 32
    ||| c as u32 == 0x85
    ||| c as u32 == 0xa0
    ||| c as u32 == 0x1680
    ||| 0x2000 <= c as u32 <= 0x200a
    ||| c as u32 == 0x2028
    ||| c as u32 == 0x2029
    ||| c as u32 == 0x202f
    ||| c as u32 == 0x205f
    ||| c as u32 == 0x3000
}

/// A decimal digit.
pub open spec fn is_digit(c: char) -> bool {
    48 <= c as u32 <= 57
}

/// The value of a decimal digit.
pub open spec fn digit_val(c: char) -> int {
    c as u32 - 48
}

/// Index of the first non-whitespace character at or after `i`, or the length
/// of `s` if there is none.
pub open spec fn skip_ws_from(s: Seq<char>, i: int) -> int
    decreases s.len() - i,
{
    if i < 0 || i >= s.len() {
        s.len() as int
    } else if !is_ws(s[i]) {
        i
    } else {
        skip_ws_from(s, i + 1)
    }
}

/// Index of the first whitespace character at or after `i`, or the length of
/// `s` if there is none.
pub open spec fn token_end_from(s: Seq<char>, i: int) -> int
    decreases s.len() - i,
{
    if i < 0 || i >= s.len() {
        s.len() as int
    } else if is_ws(s[i]) {
        i
    } else {
        token_end_from(s, i + 1)
    }
}

/// Start index of the `k`-th whitespace-separated field of `s`, or the length
/// of `s` if there are not that many.
pub open spec fn tok_start(s: Seq<char>, k: int) -> int
    decreases k,
{
    if k <= 0 {
        skip_ws_from(s, 0)
    } else {
        skip_ws_from(s, token_end_from(s, tok_start(s, k - 1)))
    }
}

/// Every character of `t` is a digit and there is at least one.
pub open spec fn all_digits(t: Seq<char>) -> bool {
    t.len() > 0 && forall|i: int| 0 <= i < t.len() ==> is_digit(t[i])
}

/// The value of a sequence of decimal digits.
pub open spec fn digits_val(t: Seq<char>) -> int
    decreases t.len(),
{
    if t.len() == 0 {
        0
    } else {
        digits_val(t.drop_last()) * 10 + digit_val(t.last())
    }
}

/// The unsigned decimal reading of a field: digits after an optional plus
/// sign, with a value that fits in eight bits.
pub open spec fn spec_parse_u8(t: Seq<char>) -> Option<u8> {
    if t.len() == 0 {
        None
    } else {
        let body = if t[0] == '+' {
            t.drop_first()
        } else {
            t
        };
        if all_digits(body) && digits_val(body) <= 255 {
            Some(digits_val(body) as u8)
        } else {
            None
        }
    }
}

/// The signed decimal reading of a field: digits after an optional sign, with
/// a value that fits in a signed byte.
pub open spec fn spec_parse_i8(t: Seq<char>) -> Option<i8> {
    if t.len() == 0 {
        None
    } else {
        let neg = t[0] == '-';
        let body = if t[0] == '-' || t[0] == '+' {
            t.drop_first()
        } else {
            t
        };
        if !all_digits(body) {
            None
        } else if neg && digits_val(body) <= 128 {
            Some((-digits_val(body)) as i8)
        } else if !neg && digits_val(body) <= 127 {
            Some(digits_val(body) as i8)
        } else {
            None
        }
    }
}

/// The vehicle a record describes: four numeric fields and the first
/// character of the fifth field, or nothing if the record has fewer than five
/// fields or a numeric field does not parse. Fields beyond the fifth are
/// ignored.
pub open spec fn spec_parse_car(s: Seq<char>) -> Option<Car> {
    let a0 = tok_start(s, 0);
    let e0 = token_end_from(s, a0);
    let a1 = tok_start(s, 1);
    let e1 = token_end_from(s, a1);
    let a2 = tok_start(s, 2);
    let e2 = token_end_from(s, a2);
    let a3 = tok_start(s, 3);
    let e3 = token_end_from(s, a3);
    let a4 = tok_start(s, 4);
    if a4 >= s.len() {
        None
    } else {
        match (
            spec_parse_u8(s.subrange(a0, e0)),
            spec_parse_i8(s.subrange(a1, e1)),
            spec_parse_i8(s.subrange(a2, e2)),
            spec_parse_i8(s.subrange(a3, e3)),
        ) {
            (Some(id), Some(x), Some(y), Some(len)) => Some(Car { id, x, y, len, dir: s[a4] }),
            _ => None,
        }
    }
}

/// Is this character whitespace for field splitting?
fn ws_char(c: char) -> (r: bool)
    ensures
        r == is_ws(c),
{
    let u = c as u32;
    (9 <= u && u <= 13) || u == 32 || u == 0x85 || u == 0xa0 || u == 0x1680 || (0x2000 <= u && u
        <= 0x200a) || u == 0x2028 || u == 0x2029 || u == 0x202f || u == 0x205f || u == 0x3000
}

/// First non-whitespace position at or after `from`.
fn skip_ws(s: &str, from: usize) -> (r: usize)
    requires
        from <= s@.len(),
    ensures
        r as int == skip_ws_from(s@, from as int),
        from <= r <= s@.len(),
{
    let n = s.unicode_len();
    let mut i = from;
    while i < n
        invariant
            from <= i <= n,
            n == s@.len(),
            skip_ws_from(s@, from as int) == skip_ws_from(s@, i as int),
        decreases n - i,
    {
        let c = s.get_char(i);
        if !ws_char(c) {
            return i;
        }
        i = i + 1;
    }
    i
}

/// First whitespace position at or after `from`.
fn token_end(s: &str, from: usize) -> (r: usize)
    requires
        from <= s@.len(),
    ensures
        r as int == token_end_from(s@, from as int),
        from <= r <= s@.len(),
{
    let n = s.unicode_len();
    let mut i = from;
    while i < n
        invariant
            from <= i <= n,
            n == s@.len(),
            token_end_from(s@, from as int) == token_end_from(s@, i as int),
        decreases n - i,
    {
        let c = s.get_char(i);
        if ws_char(c) {
            return i;
        }
        i = i + 1;
    }
    i
}

/// Scan the digits of `s[start..end)`. The flag says whether the range is one
/// or more digits and nothing else; the value is their reading, clamped to
/// 1000 so that any out-of-byte-range value stays recognizably too large.
fn scan_mag(s: &str, start: usize, end: usize) -> (r: (bool, u32))
    requires
        start <= end <= s@.len(),
    ensures
        r.0 == all_digits(s@.subrange(start as int, end as int)),
        r.0 ==> digits_val(s@.subrange(start as int, end as int)) >= 0,
        r.0 ==> ((digits_val(s@.subrange(start as int, end as int)) <= 999 && r.1 as int
            == digits_val(s@.subrange(start as int, end as int))) || (digits_val(
            s@.subrange(start as int, end as int),
        ) >= 1000 && r.1 == 1000)),
{
    if start == end {
        return (false, 0);
    }
    let mut i = start;
    let mut acc: u32 = 0;
    while i < end
        invariant
            start <= i <= end <= s@.len(),
            forall|j: int| start <= j < i ==> is_digit(s@[j]),
            digits_val(s@.subrange(start as int, i as int)) >= 0,
            (digits_val(s@.subrange(start as int, i as int)) <= 999 && acc as int == digits_val(
                s@.subrange(start as int, i as int),
            )) || (digits_val(s@.subrange(start as int, i as int)) >= 1000 && acc == 1000),
        decreases end - i,
    {
        let c = s.get_char(i);
        let u = c as u32;
        if !(48 <= u && u <= 57) {
            proof {
                assert(s@.subrange(start as int, end as int)[i - start] == s@[i as int]);
            }
            return (false, 0);
        }
        let d = u - 48;
        proof {
            assert(s@.subrange(start as int, i + 1 as int) =~= s@.subrange(
                start as int,
                i as int,
            ).push(s@[i as int]));
            assert(s@.subrange(start as int, i + 1 as int).drop_last() =~= s@.subrange(
                start as int,
                i as int,
            ));
        }
        acc = if acc * 10 + d > 999 {
            1000
        } else {
            acc * 10 + d
        };
        i = i + 1;
    }
    (true, acc)
}

/// Read an unsigned byte from `s[start..end)`.
fn parse_u8_tok(s: &str, start: usize, end: usize) -> (r: Option<u8>)
    requires
        start <= end <= s@.len(),
    ensures
        r == spec_parse_u8(s@.subrange(start as int, end as int)),
{
    if start == end {
        return None;
    }
    let c0 = s.get_char(start);
    let bodystart = if c0 == '+' {
        start + 1
    } else {
        start
    };
    proof {
        if c0 == '+' {
            assert(s@.subrange(start as int, end as int).drop_first() =~= s@.subrange(
                bodystart as int,
                end as int,
            ));
        }
    }
    let (ok, mag) = scan_mag(s, bodystart, end);
    if ok && mag <= 255 {
        Some(mag as u8)
    } else {
        None
    }
}

/// Read a signed byte from `s[start..end)`.
fn parse_i8_tok(s: &str, start: usize, end: usize) -> (r: Option<i8>)
    requires
        start <= end <= s@.len(),
    ensures
        r == spec_parse_i8(s@.subrange(start as int, end as int)),
{
    if start == end {
        return None;
    }
    let c0 = s.get_char(start);
    let neg = c0 == '-';
    let bodystart = if c0 == '-' || c0 == '+' {
        start + 1
    } else {
        start
    };
    proof {
        if c0 == '-' || c0 == '+' {
            assert(s@.subrange(start as int, end as int).drop_first() =~= s@.subrange(
                bodystart as int,
                end as int,
            ));
        }
    }
    let (ok, mag) = scan_mag(s, bodystart, end);
    if !ok {
        return None;
    }
    if neg {
        if mag <= 128 {
            let v: i32 = -(mag as i32);
            Some(v as i8)
        } else {
            None
        }
    } else {
        if mag <= 127 {
            Some(mag as i8)
        } else {
            None
        }
    }
}

impl Car {
    /// Read one vehicle record, or reject it.
    pub fn parse_car(s: &str) -> (r: Option<Car>)
        ensures
            r == spec_parse_car(s@),
    {
        let a0 = skip_ws(s, 0);
        let e0 = token_end(s, a0);
        let a1 = skip_ws(s, e0);
        let e1 = token_end(s, a1);
        let a2 = skip_ws(s, e1);
        let e2 = token_end(s, a2);
        let a3 = skip_ws(s, e2);
        let e3 = token_end(s, a3);
        let a4 = skip_ws(s, e3);
        proof {
            assert(a0 as int == tok_start(s@, 0));
            assert(a1 as int == tok_start(s@, 1));
            assert(a2 as int == tok_start(s@, 2));
            assert(a3 as int == tok_start(s@, 3));
            assert(a4 as int == tok_start(s@, 4));
        }
        if a4 == s.unicode_len() {
            return None;
        }
        let id = parse_u8_tok(s, a0, e0);
        let x = parse_i8_tok(s, a1, e1);
        let y = parse_i8_tok(s, a2, e2);
        let len = parse_i8_tok(s, a3, e3);
        let dir = s.get_char(a4);
        match (id, x, y, len) {
            (Some(id), Some(x), Some(y), Some(len)) => Some(Car { id, x, y, len, dir }),
            _ => None,
        }
    }
}

impl State {
    /// Build the initial search node from one record per vehicle: every
    /// record must parse; the path starts empty and the pending move is a
    /// placeholder that is never applied.
    pub fn parse_cars(car_strs: Vec<&str>) -> (r: Option<State>)
        ensures
            match r {
                Some(st) => {
                    &&& st.cars@.len() == car_strs@.len()
                    &&& forall|j: int|
                        0 <= j < car_strs@.len() ==> Some((#[trigger] st.cars@[j]))
                            == spec_parse_car(car_strs@[j]@)
                    &&& st.history@.len() == 0
                    &&& st.next_move == (CarMove {
                        car: Car { id: 0, x: 0, y: 0, len: 0, dir: 'H' },
                        move_dir: 'H',
                    })
                },
                None => exists|j: int|
                    0 <= j < car_strs@.len() && spec_parse_car((#[trigger] car_strs@[j])@) is None,
            },
    {
        let mut cars: Vec<Car> = Vec::new();
        let mut i: usize = 0;
        while i < car_strs.len()
            invariant
                0 <= i <= car_strs@.len(),
                cars@.len() == i,
                forall|j: int|
                    0 <= j < i ==> Some((#[trigger] cars@[j])) == spec_parse_car(car_strs@[j]@),
            decreases car_strs@.len() - i,
        {
            match Car::parse_car(car_strs[i]) {
                Some(c) => {
                    cars.push(c);
                },
                None => {
                    return None;
                },
            }
            i = i + 1;
        }
        Some(
            State {
                cars,
                history: Vec::new(),
                next_move: CarMove {
                    car: Car { id: 0, x: 0, y: 0, len: 0, dir: 'H' },
                    move_dir: 'H',
                },
            },
        )
    }
}

} // verus!
