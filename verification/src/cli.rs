//! The command line: its parsed form and the parsers of its values.
//!
//! Register inputs are unsigned decimal, or hexadecimal after a `0x` (or `0X`)
//! prefix; dedicated register operations reject values that the firmware
//! would truncate rather than pass them on.
use std::time::Duration;
use vstd::prelude::*;
use vstd::utf8::encode_utf8;
use crate::protocol::MAX_COMMAND_BYTES;
use crate::text::{
    all_digits, chars_of, dec, digit_of, digit_value, digits_value, hex, hex_upper, is_white_space,
    lemma_digits_read_back, lemma_hex_upper_read_back, lemma_leading_zeros, read_digits, white_space,
    zeros,
};

verus! {

broadcast use vstd::string::group_string_axioms;

/// The parsed command line.
#[derive(Debug)]
pub struct Cli {
    /// Frame hostname or IP address.
    pub host: String,
    /// Target card slot, from 1 through 20.
    pub slot: u8,
    /// Binary protocol TCP port.
    pub port: u16,
    /// Response timeout or command collection window.
    pub timeout: Duration,
    /// Do not evict another connection when the frame is full.
    pub no_force: bool,
    /// Print one JSON object per result or received text message.
    pub json: bool,
    /// Print decimal values; input parsing is unchanged.
    pub decimal_output: bool,
    pub operation: Operation,
}

#[derive(Debug)]
pub enum Operation {
    /// Read or write a register.
    Reg { operation: RegisterOperation },
    /// Send command text unchanged and collect printed output.
    Command { text: String },
}

#[derive(Debug)]
pub enum RegisterOperation {
    /// Read one register, once or repeatedly at the `poll` interval.
    Read { address: u32, poll: Option<Duration> },
    /// Write one byte and require matching readback.
    Write { address: u32, value: u8 },
}

/// Largest register address.
pub const MAX_ADDRESS: u32 = 0x00ff_ffff;

/// The digits of an unsigned input and their radix: hexadecimal after a `0x`
/// or `0X` prefix, else decimal.
pub open spec fn unsigned_digits(s: Seq<char>) -> (Seq<char>, nat) {
    if s.len() >= 2 && s[0] == '0' && (s[1] == 'x' || s[1] == 'X') {
        (s.skip(2), 16)
    } else {
        (s, 10)
    }
}

/// What `parse_unsigned` gives for an input: its value, or the message that
/// rejects it.
pub open spec fn unsigned_outcome(s: Seq<char>) -> Result<nat, Seq<char>> {
    let (ds, radix) = unsigned_digits(s);
    if ds.len() == 0 || !all_digits(ds, radix) {
        Err("use an unsigned decimal integer or hexadecimal with a 0x prefix"@)
    } else if digits_value(ds, radix) > u32::MAX {
        Err("integer exceeds the supported range"@)
    } else {
        Ok(digits_value(ds, radix))
    }
}

pub open spec fn address_outcome(s: Seq<char>) -> Result<nat, Seq<char>> {
    match unsigned_outcome(s) {
        Ok(v) => if v > MAX_ADDRESS {
            Err("address must be between 0 and 0xffffff"@)
        } else {
            Ok(v)
        },
        Err(m) => Err(m),
    }
}

pub open spec fn byte_outcome(s: Seq<char>) -> Result<nat, Seq<char>> {
    match unsigned_outcome(s) {
        Ok(v) => if v > 0xff {
            Err("value must be between 0 and 0xff"@)
        } else {
            Ok(v)
        },
        Err(m) => Err(m),
    }
}

/// Register inputs are refused, never truncated: an address or byte value
/// is accepted exactly when the number written is in range, and is then
/// that number itself; a number out of range is refused with the range's
/// message, and an input that is no number keeps the number's message.
pub proof fn law_register_inputs_are_refused_not_truncated(s: Seq<char>)
    ensures
        unsigned_outcome(s) matches Ok(v) ==> {
            &&& (v <= 0xff ==> byte_outcome(s) == Ok::<nat, Seq<char>>(v))
            &&& (v > 0xff ==> byte_outcome(s) == Err::<nat, Seq<char>>(
                "value must be between 0 and 0xff"@,
            ))
            &&& (v <= 0xffffff ==> address_outcome(s) == Ok::<nat, Seq<char>>(v))
            &&& (v > 0xffffff ==> address_outcome(s) == Err::<nat, Seq<char>>(
                "address must be between 0 and 0xffffff"@,
            ))
        },
        unsigned_outcome(s) matches Err(m) ==> byte_outcome(s) == Err::<nat, Seq<char>>(m)
            && address_outcome(s) == Err::<nat, Seq<char>>(m),
        byte_outcome(s) matches Ok(b) ==> b <= 0xff && unsigned_outcome(s) == Ok::<nat, Seq<char>>(b),
        address_outcome(s) matches Ok(a) ==> a <= 0xffffff && unsigned_outcome(s) == Ok::<
            nat,
            Seq<char>,
        >(a),
{
}

/// Reads an unsigned 32-bit input.
pub fn parse_unsigned(input: &str) -> (r: Result<u32, String>)
    ensures
        match r {
            Ok(v) => unsigned_outcome(input@) == Ok::<nat, Seq<char>>(v as nat),
            Err(m) => unsigned_outcome(input@) == Err::<nat, Seq<char>>(m@),
        },
{
    let cs = chars_of(input);
    let hex = cs.len() >= 2 && cs[0] == '0' && (cs[1] == 'x' || cs[1] == 'X');
    let start: usize = if hex { 2 } else { 0 };
    let radix: u64 = if hex { 16 } else { 10 };
    assert(cs@.skip(0) =~= cs@);
    let ghost ds = cs@.skip(start as int);
    if start == cs.len() {
        return Err("use an unsigned decimal integer or hexadecimal with a 0x prefix".to_string());
    }
    let mut all = true;
    let mut i = start;
    while i < cs.len()
        invariant
            start <= i <= cs@.len(),
            ds == cs@.skip(start as int),
            radix == 10 || radix == 16,
            all <==> forall|j: int| 0 <= j < i - start ==> (#[trigger] digit_value_of(ds, j, radix)),
        decreases cs@.len() - i,
    {
        let ok = digit_is_some(cs[i], radix);
        assert(ds[i - start] == cs@[i as int]);
        assert(digit_value_of(ds, i - start, radix) == ok);
        if !ok {
            all = false;
        }
        i = i + 1;
    }
    if !all {
        assert(!all_digits(ds, radix as nat)) by {
            let j = choose|j: int| 0 <= j < ds.len() && !digit_value_of(ds, j, radix);
            assert(digit_value(ds[j], radix as nat) is None);
        }
        return Err("use an unsigned decimal integer or hexadecimal with a 0x prefix".to_string());
    }
    assert(all_digits(ds, radix as nat)) by {
        assert forall|j: int| 0 <= j < ds.len() implies (#[trigger] digit_value(ds[j], radix as nat))
            is Some by {
            assert(digit_value_of(ds, j, radix));
        }
    }
    match read_digits(&cs, start, radix, 0xffff_ffff) {
        Some(v) => Ok(v as u32),
        None => Err("integer exceeds the supported range".to_string()),
    }
}

/// The character at `j` is a digit in `radix`.
spec fn digit_value_of(ds: Seq<char>, j: int, radix: u64) -> bool {
    digit_value(ds[j], radix as nat) is Some
}

fn digit_is_some(c: char, radix: u64) -> (b: bool)
    requires
        radix <= 36,
    ensures
        b == digit_value(c, radix as nat) is Some,
{
    digit_of(c, radix).is_some()
}

/// Reads a register address, 0 through 0xffffff.
pub fn parse_address(input: &str) -> (r: Result<u32, String>)
    ensures
        match r {
            Ok(v) => address_outcome(input@) == Ok::<nat, Seq<char>>(v as nat),
            Err(m) => address_outcome(input@) == Err::<nat, Seq<char>>(m@),
        },
        unsigned_outcome(input@) matches Ok(v) ==> (v <= MAX_ADDRESS ==> r == Ok::<u32, String>(
            v as u32,
        )),
        unsigned_outcome(input@) matches Ok(v) && v > MAX_ADDRESS ==> (r matches Err(m) && m@
            == "address must be between 0 and 0xffffff"@),
        unsigned_outcome(input@) matches Err(e) ==> (r matches Err(m) && m@ == e),
{
    let value = parse_unsigned(input)?;
    if value > MAX_ADDRESS {
        return Err("address must be between 0 and 0xffffff".to_string());
    }
    Ok(value)
}

/// Reads a byte value, 0 through 0xff.
pub fn parse_byte(input: &str) -> (r: Result<u8, String>)
    ensures
        match r {
            Ok(v) => byte_outcome(input@) == Ok::<nat, Seq<char>>(v as nat),
            Err(m) => byte_outcome(input@) == Err::<nat, Seq<char>>(m@),
        },
        unsigned_outcome(input@) matches Ok(v) ==> (v <= 0xff ==> r == Ok::<u8, String>(v as u8)),
        unsigned_outcome(input@) matches Ok(v) && v > 0xff ==> (r matches Err(m) && m@
            == "value must be between 0 and 0xff"@),
        unsigned_outcome(input@) matches Err(e) ==> (r matches Err(m) && m@ == e),
{
    let value = parse_unsigned(input)?;
    if value > 0xff {
        return Err("value must be between 0 and 0xff".to_string());
    }
    Ok(value as u8)
}

pub open spec fn command_outcome(s: Seq<char>) -> Result<Seq<char>, Seq<char>> {
    if (forall|i: int| 0 <= i < s.len() ==> is_white_space(#[trigger] s[i])) || s.contains('\0') {
        Err("command must contain text and cannot contain a NUL character"@)
    } else if encode_utf8(s).len() > MAX_COMMAND_BYTES {
        Err("command must fit in 259 UTF-8 bytes"@)
    } else {
        Ok(s)
    }
}

/// Accepts command text that is not blank, holds no NUL and fits in 259
/// UTF-8 bytes; the text is kept unchanged.
pub fn parse_command(input: &str) -> (r: Result<String, String>)
    ensures
        match r {
            Ok(t) => command_outcome(input@) == Ok::<Seq<char>, Seq<char>>(t@),
            Err(m) => command_outcome(input@) == Err::<Seq<char>, Seq<char>>(m@),
        },
{
    let cs = chars_of(input);
    let mut blank = true;
    let mut nul = false;
    for i in 0..cs.len()
        invariant
            cs@ == input@,
            blank <==> forall|j: int| 0 <= j < i ==> is_white_space(#[trigger] input@[j]),
            nul ==> input@.contains('\0'),
            !nul ==> forall|j: int| 0 <= j < i ==> input@[j] != '\0',
    {
        if !white_space(cs[i]) {
            blank = false;
        }
        if cs[i] == '\0' {
            assert(input@[i as int] == '\0');
            nul = true;
        }
    }
    if blank || nul {
        return Err("command must contain text and cannot contain a NUL character".to_string());
    }
    if input.as_bytes().len() > MAX_COMMAND_BYTES {
        return Err("command must fit in 259 UTF-8 bytes".to_string());
    }
    Ok(input.to_string())
}

/// The number that all ASCII digits of a text spell when read together, in
/// order, as one decimal number; other characters are skipped.
pub open spec fn digit_number(s: Seq<char>) -> nat
    decreases s.len(),
{
    if s.len() == 0 {
        0
    } else if 0x30 <= (s.last() as u32) <= 0x39 {
        digit_number(s.drop_last()) * 10 + ((s.last() as u32) - 0x30) as nat
    } else {
        digit_number(s.drop_last())
    }
}

/// Largest number that the digits of a duration text may spell together.
pub const MAX_DURATION_NUMBER: u64 = 500_000_000_000;

/// A duration text that `humantime::parse_duration` reads without panicking.
///
/// humantime panics in `Duration::new` only when its running total reaches
/// `u64::MAX` seconds together with a carry of exactly one second from the
/// nanoseconds. Every digit that humantime reads is an ASCII digit, and the
/// numbers of the terms are disjoint runs of the text's digits in order, so
/// together they are at most `digit_number(text)`. A term adds at most its
/// number times a year (31_557_600 s, the largest unit), and its fraction
/// less than one more unit; a fraction adds anything only where it holds a
/// nonzero digit, and a number of at most 5e11 has at most twelve of them.
/// So every total stays below (5e11 + 12) * 31_557_600 + 5e8 < 1.6e19
/// seconds, short of `u64::MAX`.
pub open spec fn duration_in_range(text: Seq<char>) -> bool {
    digit_number(text) <= MAX_DURATION_NUMBER
}

/// The duration that `humantime::parse_duration` reads from a text, as whole
/// seconds and the nanoseconds below a second; None where it reports an error.
pub uninterp spec fn humantime_duration(text: Seq<char>) -> Option<(u64, u32)>;

/// Calls `humantime::parse_duration`, on texts that `duration_in_range`
/// admits, where it returns (see there). Claims that it succeeds exactly
/// where the name `humantime_duration` has a value, and that it returns that
/// value, split into seconds and subsecond nanoseconds (fewer than a billion,
/// as `Duration::subsec_nanos` documents). The error message is humantime's
/// own text and nothing is claimed of it.
#[verifier::external_body]
fn humantime_parse(text: &str) -> (r: Result<(u64, u32), String>)
    requires
        duration_in_range(text@),
    ensures
        r is Ok <==> humantime_duration(text@) is Some,
        r matches Ok(v) ==> humantime_duration(text@) == Some(v) && v.1 < 1_000_000_000,
{
    match humantime::parse_duration(text) {
        Ok(d) => Ok((d.as_secs(), d.subsec_nanos())),
        Err(e) => Err(e.to_string()),
    }
}

/// Whether the digits of a duration text spell a number in range.
pub fn duration_digits_in_range(text: &str) -> (b: bool)
    ensures
        b == duration_in_range(text@),
{
    let cs = chars_of(text);
    let mut value: u64 = 0;
    let mut over = false;
    for i in 0..cs.len()
        invariant
            cs@ == text@,
            !over ==> value == digit_number(cs@.take(i as int)) && value <= MAX_DURATION_NUMBER,
            over ==> digit_number(cs@.take(i as int)) > MAX_DURATION_NUMBER,
    {
        assert(cs@.take(i + 1).drop_last() =~= cs@.take(i as int));
        let u = cs[i] as u32;
        if 0x30 <= u && u <= 0x39 && !over {
            value = value * 10 + (u - 0x30) as u64;
            if value > MAX_DURATION_NUMBER {
                over = true;
            }
        }
    }
    assert(cs@.take(cs@.len() as int) =~= cs@);
    !over
}

/// Checks a duration that humantime read: zero is refused, any other value
/// is kept.
pub fn check_duration(value: (u64, u32)) -> (r: Result<(u64, u32), String>)
    ensures
        value != (0u64, 0u32) ==> r == Ok::<(u64, u32), String>(value),
        value == (0u64, 0u32) ==> (r matches Err(m) && m@ == "duration must be greater than zero"@),
{
    if value.0 == 0 && value.1 == 0 {
        return Err("duration must be greater than zero".to_string());
    }
    Ok(value)
}

/// Reads a duration with units, such as `500ms` or `2s`, as seconds and
/// nanoseconds; zero is rejected. Whether the duration can be added to the
/// current instant is the caller's check, since it depends on the clock.
pub fn parse_duration(input: &str) -> (r: Result<(u64, u32), String>)
    requires
        duration_in_range(input@),
    ensures
        r is Ok <==> (humantime_duration(input@) matches Some(v) && v != (0u64, 0u32)),
        r matches Ok(v) ==> humantime_duration(input@) == Some(v) && v.1 < 1_000_000_000,
        (humantime_duration(input@) == Some((0u64, 0u32))) ==> (r matches Err(m) && m@
            == "duration must be greater than zero"@),
{
    let value = humantime_parse(input)?;
    check_duration(value)
}

/// Reads any duration text: one whose digits spell a number beyond
/// `MAX_DURATION_NUMBER` is refused as out of range before humantime reads
/// it; all others are read as `parse_duration` reads them.
pub fn read_duration(input: &str) -> (r: Result<(u64, u32), String>)
    ensures
        !duration_in_range(input@) ==> (r matches Err(m) && m@
            == "duration exceeds the supported range"@),
        duration_in_range(input@) ==> {
            &&& r is Ok <==> (humantime_duration(input@) matches Some(v) && v != (0u64, 0u32))
            &&& r matches Ok(v) ==> humantime_duration(input@) == Some(v) && v.1 < 1_000_000_000
            &&& (humantime_duration(input@) == Some((0u64, 0u32))) ==> (r matches Err(m) && m@
                == "duration must be greater than zero"@)
        },
{
    if !duration_digits_in_range(input) {
        return Err("duration exceeds the supported range".to_string());
    }
    parse_duration(input)
}

/// Unprefixed input is decimal and `0x` input hexadecimal: the digits that
/// `{}` prints for a number, and `0x` followed by the digits that `{:x}`
/// prints, both read back as that number.
pub proof fn law_printed_number_reads_back(n: u32)
    ensures
        unsigned_outcome(dec(n as nat)) == Ok::<nat, Seq<char>>(n as nat),
        unsigned_outcome("0x"@ + hex(n as nat)) == Ok::<nat, Seq<char>>(n as nat),
{
    lemma_digits_read_back(n as nat, 10);
    lemma_digits_read_back(n as nat, 16);
    let d = dec(n as nat);
    if d.len() >= 2 {
        assert(digit_value(d[1], 10) is Some);
    }
    assert(unsigned_digits(d) == (d, 10nat));
    reveal_strlit("0x");
    let h = "0x"@ + hex(n as nat);
    assert(h.skip(2) =~= hex(n as nat));
    assert(h[0] == '0' && h[1] == 'x');
}

/// A register address and a byte value as the client prints them read back
/// as the same address and value; larger numbers are rejected, not truncated.
pub proof fn law_register_inputs_read_back(address: u32, value: u8)
    ensures
        address <= MAX_ADDRESS ==> address_outcome(dec(address as nat)) == Ok::<nat, Seq<char>>(
            address as nat,
        ) && address_outcome("0x"@ + hex(address as nat)) == Ok::<nat, Seq<char>>(address as nat),
        address > MAX_ADDRESS ==> address_outcome(dec(address as nat)) is Err && address_outcome(
            "0x"@ + hex(address as nat),
        ) is Err,
        byte_outcome(dec(value as nat)) == Ok::<nat, Seq<char>>(value as nat),
        byte_outcome("0x"@ + hex(value as nat)) == Ok::<nat, Seq<char>>(value as nat),
{
    law_printed_number_reads_back(address);
    law_printed_number_reads_back(value as u32);
}

/// Inputs as users write them read back as the number, with any number of
/// leading zeroes: decimal, `0x` with lower-case digits, and `0X` with
/// upper-case digits.
pub proof fn law_input_forms_read_back(n: u32, k: nat)
    ensures
        unsigned_outcome(zeros(k) + dec(n as nat)) == Ok::<nat, Seq<char>>(n as nat),
        unsigned_outcome("0x"@ + zeros(k) + hex(n as nat)) == Ok::<nat, Seq<char>>(n as nat),
        unsigned_outcome("0X"@ + zeros(k) + hex_upper(n as nat)) == Ok::<nat, Seq<char>>(n as nat),
{
    reveal_strlit("0x");
    reveal_strlit("0X");
    lemma_digits_read_back(n as nat, 10);
    lemma_digits_read_back(n as nat, 16);
    lemma_hex_upper_read_back(n as nat);
    lemma_leading_zeros(k, dec(n as nat), 10);
    lemma_leading_zeros(k, hex(n as nat), 16);
    lemma_leading_zeros(k, hex_upper(n as nat), 16);
    let d = zeros(k) + dec(n as nat);
    if d.len() >= 2 {
        assert(digit_value(d[1], 10) is Some);
    }
    assert(unsigned_digits(d) == (d, 10nat));
    let h = "0x"@ + zeros(k) + hex(n as nat);
    assert(h.skip(2) =~= zeros(k) + hex(n as nat));
    assert(h[0] == '0' && h[1] == 'x');
    let u = "0X"@ + zeros(k) + hex_upper(n as nat);
    assert(u.skip(2) =~= zeros(k) + hex_upper(n as nat));
    assert(u[0] == '0' && u[1] == 'X');
}

} // verus!
