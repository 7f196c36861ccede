use vstd::prelude::*;

verus! {

/// A UTC wall-clock instant, held as plain calendar fields.
#[derive(Clone, Copy, PartialEq, Eq, Structural, Debug)]
pub struct Time {
    pub year: u16,
    pub month: u8,
    pub day: u8,
    pub hour: u8,
    pub minute: u8,
    pub second: u8,
}

impl Time {
    pub open spec fn wf(self) -> bool {
        &&& self.year <= 9999
        &&& 1 <= self.month <= 12
        &&& 1 <= self.day <= 31
        &&& self.hour < 24
        &&& self.minute < 60
        &&& self.second < 60
    }
}

/// Relies on chrono::Utc::now and the Datelike/Timelike accessors of the
/// returned DateTime: the fields describe one UTC instant, within the stated
/// calendar ranges. chrono panics when the host clock reads before 1970;
/// that condition is environmental and cannot be excluded here.
#[verifier::external_body]
pub fn utc_now() -> (t: Time)
    ensures
        t.wf(),
{
    let now = chrono::Utc::now();
    let date = chrono::Datelike::year(&now).clamp(0, 9999) as u16;
    Time {
        year: date,
        month: chrono::Datelike::month(&now) as u8,
        day: chrono::Datelike::day(&now) as u8,
        hour: chrono::Timelike::hour(&now) as u8,
        minute: chrono::Timelike::minute(&now) as u8,
        second: chrono::Timelike::second(&now) as u8,
    }
}

/// The character for one decimal digit.
pub open spec fn digit_char(d: int) -> char {
    if d == 0 {
        '0'
    } else if d == 1 {
        '1'
    } else if d == 2 {
        '2'
    } else if d == 3 {
        '3'
    } else if d == 4 {
        '4'
    } else if d == 5 {
        '5'
    } else if d == 6 {
        '6'
    } else if d == 7 {
        '7'
    } else if d == 8 {
        '8'
    } else {
        '9'
    }
}

/// A number rendered as exactly two digits.
pub open spec fn pad2(n: int) -> Seq<char> {
    seq![digit_char(n / 10 % 10), digit_char(n % 10)]
}

/// A number rendered as exactly four digits.
pub open spec fn pad4(n: int) -> Seq<char> {
    seq![
        digit_char(n / 1000 % 10),
        digit_char(n / 100 % 10),
        digit_char(n / 10 % 10),
        digit_char(n % 10),
    ]
}

/// The compact UTC timestamp a backup id carries: YYYYMMDDTHHMMSSZ.
pub open spec fn timestamp_chars(t: Time) -> Seq<char> {
    pad4(t.year as int) + pad2(t.month as int) + pad2(t.day as int) + seq!['T'] + pad2(
        t.hour as int,
    ) + pad2(t.minute as int) + pad2(t.second as int) + seq!['Z']
}

fn digit_char_x(d: u32) -> (c: char)
    requires
        d < 10,
    ensures
        c == digit_char(d as int),
{
    match d {
        0 => '0',
        1 => '1',
        2 => '2',
        3 => '3',
        4 => '4',
        5 => '5',
        6 => '6',
        7 => '7',
        8 => '8',
        _ => '9',
    }
}

fn push_pad2(out: &mut Vec<char>, n: u32)
    requires
        n < 100,
    ensures
        final(out)@ == old(out)@ + pad2(n as int),
{
    out.push(digit_char_x(n / 10 % 10));
    out.push(digit_char_x(n % 10));
    proof {
        assert(final(out)@ =~= old(out)@ + pad2(n as int));
    }
}

fn push_pad4(out: &mut Vec<char>, n: u32)
    requires
        n < 10000,
    ensures
        final(out)@ == old(out)@ + pad4(n as int),
{
    out.push(digit_char_x(n / 1000 % 10));
    out.push(digit_char_x(n / 100 % 10));
    out.push(digit_char_x(n / 10 % 10));
    out.push(digit_char_x(n % 10));
    proof {
        assert(final(out)@ =~= old(out)@ + pad4(n as int));
    }
}

/// Appends the YYYYMMDDTHHMMSSZ rendering of a timestamp.
pub fn push_timestamp(out: &mut Vec<char>, t: &Time)
    requires
        t.wf(),
    ensures
        final(out)@ == old(out)@ + timestamp_chars(*t),
{
    push_pad4(out, t.year as u32);
    push_pad2(out, t.month as u32);
    push_pad2(out, t.day as u32);
    out.push('T');
    push_pad2(out, t.hour as u32);
    push_pad2(out, t.minute as u32);
    push_pad2(out, t.second as u32);
    out.push('Z');
    proof {
        assert(final(out)@ =~= old(out)@ + timestamp_chars(*t));
    }
}

/// Renders a timestamp as YYYYMMDDTHHMMSSZ.
pub fn format_timestamp(t: &Time) -> (r: String)
    requires
        t.wf(),
    ensures
        r@ == timestamp_chars(*t),
{
    let mut out: Vec<char> = Vec::new();
    push_timestamp(&mut out, t);
    proof {
        assert(out@ =~= timestamp_chars(*t));
    }
    crate::text::string_of(&out)
}

} // verus!
