//! What the client prints for a register result and for device text.
//!
//! Each result is one line: `Address 0x20=0x2a` by default, decimal numbers
//! with `--decimal-output`, one JSON object per line with `--json`.
use vstd::prelude::*;
use crate::text::{
    chars_of, dec, digit_char, digit_value, digits, digits_value, hex, lemma_digits_read_back,
    push_char, push_dec, push_hex, push_str,
};

verus! {

broadcast use vstd::string::group_string_axioms;

/// How results are printed.
#[derive(Debug, Clone, Copy)]
pub struct OutputFormat {
    pub json: bool,
    pub decimal_output: bool,
}

/// How a JSON string literal writes one character: `"` and `\` and the
/// control characters below 0x20 are escaped, all others stand as they are.
pub open spec fn json_escape(c: char) -> Seq<char> {
    let u = c as u32;
    if c == '"' {
        seq!['\\', '"']
    } else if c == '\\' {
        seq!['\\', '\\']
    } else if u == 0x08 {
        seq!['\\', 'b']
    } else if u == 0x09 {
        seq!['\\', 't']
    } else if u == 0x0a {
        seq!['\\', 'n']
    } else if u == 0x0c {
        seq!['\\', 'f']
    } else if u == 0x0d {
        seq!['\\', 'r']
    } else if u < 0x20 {
        seq!['\\', 'u', '0', '0', digit_char((u / 16) as nat), digit_char((u % 16) as nat)]
    } else {
        seq![c]
    }
}

pub open spec fn json_escaped(s: Seq<char>) -> Seq<char>
    decreases s.len(),
{
    if s.len() == 0 {
        Seq::empty()
    } else {
        json_escaped(s.drop_last()) + json_escape(s.last())
    }
}

/// The JSON string literal for a text.
pub open spec fn json_string(s: Seq<char>) -> Seq<char> {
    seq!['"'] + json_escaped(s) + seq!['"']
}

/// A value of a JSON result object: an unsigned number or a string.
pub enum JsonScalar {
    Number(u64),
    Text(String),
}

/// The JSON text of a value: the decimal digits of a number, or a string
/// literal.
pub open spec fn scalar_json(v: JsonScalar) -> Seq<char> {
    match v {
        JsonScalar::Number(n) => dec(n as nat),
        JsonScalar::Text(t) => json_string(t@),
    }
}

/// One member of a JSON object: the key's string literal, a colon, the value.
pub open spec fn member_json(key: Seq<char>, value: Seq<char>) -> Seq<char> {
    json_string(key) + ":"@ + value
}

/// The members of a JSON object, separated by commas.
pub open spec fn members_json(ms: Seq<(Seq<char>, Seq<char>)>) -> Seq<char>
    decreases ms.len(),
{
    if ms.len() == 0 {
        Seq::empty()
    } else if ms.len() == 1 {
        member_json(ms[0].0, ms[0].1)
    } else {
        members_json(ms.drop_last()) + ","@ + member_json(ms.last().0, ms.last().1)
    }
}

/// A compact JSON object with the given members, in the given order.
pub open spec fn json_object(ms: Seq<(Seq<char>, Seq<char>)>) -> Seq<char> {
    "{"@ + members_json(ms) + "}"@
}

/// `a` sorts before `b`, comparing characters by code point, which is also
/// the order of their UTF-8 bytes.
pub open spec fn chars_before(a: Seq<char>, b: Seq<char>) -> bool
    decreases a.len(),
{
    if a.len() == 0 {
        b.len() > 0
    } else if b.len() == 0 {
        false
    } else if a[0] != b[0] {
        (a[0] as u32) < (b[0] as u32)
    } else {
        chars_before(a.drop_first(), b.drop_first())
    }
}

/// The keys of the entries rise strictly.
pub open spec fn keys_ascending(es: Seq<(String, JsonScalar)>) -> bool {
    forall|i: int, j: int| 0 <= i < j < es.len() ==> chars_before(es[i].0@, es[j].0@)
}

/// The members that the entries stand for.
pub open spec fn entry_members(es: Seq<(String, JsonScalar)>) -> Seq<(Seq<char>, Seq<char>)> {
    es.map_values(|e: (String, JsonScalar)| (e.0@, scalar_json(e.1)))
}

/// Serializes a JSON object (`serde_json::Map` in a `serde_json::Value`)
/// with `serde_json::to_string`. Claims that the result is compact JSON
/// as serde_json's compact formatter writes it: `{`, the members joined by
/// `,`, `}`, each member the key's string literal, `:` and the value; numbers
/// as decimal digits (itoa) and strings escaped as `json_string` states it,
/// as serde_json's escape table (`ESCAPE` and `write_char_escape` in
/// `ser.rs`) writes them. The map orders its keys ascending, as a `BTreeMap`
/// does, and with `preserve_order` in insertion order; with ascending keys
/// both are the order of the entries. Serializing into memory does not fail.
#[verifier::external_body]
fn json_object_text(entries: Vec<(String, JsonScalar)>) -> (r: String)
    requires
        keys_ascending(entries@),
    ensures
        r@ == json_object(entry_members(entries@)),
{
    let mut map = serde_json::Map::new();
    for (key, value) in entries {
        let value = match value {
            JsonScalar::Number(n) => serde_json::Value::from(n),
            JsonScalar::Text(t) => serde_json::Value::String(t),
        };
        map.insert(key, value);
    }
    match serde_json::to_string(&serde_json::Value::Object(map)) {
        Ok(s) => s,
        Err(_) => String::new(),
    }
}

/// The JSON text of a register address or value: a number, or `0x` and the
/// hexadecimal digits as a string.
pub open spec fn register_json(n: nat, decimal: bool) -> Seq<char> {
    if decimal {
        dec(n)
    } else {
        json_string("0x"@ + hex(n))
    }
}

/// The line that reports a register value.
pub open spec fn register_line(address: u32, value: u8, json: bool, decimal: bool) -> Seq<char> {
    if json {
        json_object(
            seq![
                ("address"@, register_json(address as nat, decimal)),
                ("value"@, register_json(value as nat, decimal)),
            ],
        ) + "\n"@
    } else if decimal {
        "Address "@ + dec(address as nat) + "="@ + dec(value as nat) + "\n"@
    } else {
        "Address 0x"@ + hex(address as nat) + "=0x"@ + hex(value as nat) + "\n"@
    }
}

/// What is printed for a text message from the device: the text, with a
/// newline added only where it lacks a final one; or one JSON object.
pub open spec fn text_output(text: Seq<char>, json: bool) -> Seq<char> {
    if json {
        json_object(seq![("text"@, json_string(text))]) + "\n"@
    } else if text.len() > 0 && text.last() == '\n' {
        text
    } else {
        text + "\n"@
    }
}

fn register_scalar(n: u64, decimal: bool) -> (v: JsonScalar)
    ensures
        scalar_json(v) == register_json(n as nat, decimal),
{
    if decimal {
        JsonScalar::Number(n)
    } else {
        let mut s = "0x".to_string();
        push_hex(&mut s, n);
        JsonScalar::Text(s)
    }
}

/// Appends the line for a register value to `writer`.
pub fn write_register(writer: &mut String, address: u32, value: u8, json: bool, decimal: bool)
    ensures
        final(writer)@ == old(writer)@ + register_line(address, value, json, decimal),
{
    let ghost start = writer@;
    if json {
        let a = register_scalar(address as u64, decimal);
        let v = register_scalar(value as u64, decimal);
        let ghost members = seq![
            ("address"@, register_json(address as nat, decimal)),
            ("value"@, register_json(value as nat, decimal)),
        ];
        let mut entries: Vec<(String, JsonScalar)> = Vec::new();
        entries.push(("address".to_string(), a));
        entries.push(("value".to_string(), v));
        proof {
            reveal_strlit("address");
            reveal_strlit("value");
            assert(chars_before("address"@, "value"@));
            assert(entry_members(entries@) =~= members);
        }
        let object = json_object_text(entries);
        push_str(writer, object.as_str());
        push_str(writer, "\n");
    } else if decimal {
        push_str(writer, "Address ");
        push_dec(writer, address as u64);
        push_str(writer, "=");
        push_dec(writer, value as u64);
        push_str(writer, "\n");
    } else {
        push_str(writer, "Address 0x");
        push_hex(writer, address as u64);
        push_str(writer, "=0x");
        push_hex(writer, value as u64);
        push_str(writer, "\n");
    }
    assert(writer@ =~= start + register_line(address, value, json, decimal));
}

/// Appends what is printed for a text message to `writer`.
pub fn write_text(writer: &mut String, text: &str, json: bool)
    ensures
        final(writer)@ == old(writer)@ + text_output(text@, json),
{
    let ghost start = writer@;
    if json {
        let mut entries: Vec<(String, JsonScalar)> = Vec::new();
        entries.push(("text".to_string(), JsonScalar::Text(text.to_string())));
        proof {
            assert(entry_members(entries@) =~= seq![("text"@, json_string(text@))]);
        }
        let object = json_object_text(entries);
        push_str(writer, object.as_str());
        push_str(writer, "\n");
    } else {
        push_str(writer, text);
        let cs = chars_of(text);
        if cs.len() == 0 || cs[cs.len() - 1] != '\n' {
            push_char(writer, '\n');
            proof {
                reveal_strlit("\n");
            }
        }
    }
    assert(writer@ =~= start + text_output(text@, json));
}

impl OutputFormat {
    /// Appends the line for a register value.
    pub fn write_register(&self, writer: &mut String, address: u32, value: u8)
        ensures
            final(writer)@ == old(writer)@ + register_line(
                address,
                value,
                self.json,
                self.decimal_output,
            ),
    {
        write_register(writer, address, value, self.json, self.decimal_output)
    }

    /// Appends what is printed for a text message.
    pub fn write_text(&self, writer: &mut String, text: &str)
        ensures
            final(writer)@ == old(writer)@ + text_output(text@, self.json),
    {
        write_text(writer, text, self.json)
    }
}

/// The text holds no line feed.
pub open spec fn single_line(s: Seq<char>) -> bool {
    forall|i: int| 0 <= i < s.len() ==> s[i] != '\n'
}

/// The text is exactly one line: it ends in a line feed and holds no other.
pub open spec fn one_line(s: Seq<char>) -> bool {
    &&& s.len() > 0
    &&& s.last() == '\n'
    &&& single_line(s.drop_last())
}

proof fn lemma_concat_single_line(a: Seq<char>, b: Seq<char>)
    requires
        single_line(a),
        single_line(b),
    ensures
        single_line(a + b),
{
    assert forall|i: int| 0 <= i < (a + b).len() implies (a + b)[i] != '\n' by {
        if i < a.len() {
            assert((a + b)[i] == a[i]);
        } else {
            assert((a + b)[i] == b[i - a.len()]);
        }
    }
}

proof fn lemma_digit_char_not_newline(d: nat)
    requires
        d < 16,
    ensures
        digit_char(d) != '\n',
{
}

proof fn lemma_digits_single_line(n: nat, radix: nat)
    requires
        2 <= radix <= 16,
    ensures
        single_line(digits(n, radix)),
    decreases n,
{
    if n < radix {
        lemma_digit_char_not_newline(n);
    } else {
        vstd::arithmetic::div_mod::lemma_div_decreases(n as int, radix as int);
        lemma_digits_single_line(n / radix, radix);
        lemma_digit_char_not_newline(n % radix);
        lemma_concat_single_line(digits(n / radix, radix), seq![digit_char(n % radix)]);
        assert(digits(n, radix) =~= digits(n / radix, radix) + seq![digit_char(n % radix)]);
    }
}

proof fn lemma_json_escaped_single_line(s: Seq<char>)
    ensures
        single_line(json_escaped(s)),
    decreases s.len(),
{
    if s.len() > 0 {
        lemma_json_escaped_single_line(s.drop_last());
        let c = s.last();
        let u = c as u32;
        if u < 0x20 {
            lemma_digit_char_not_newline((u / 16) as nat);
            lemma_digit_char_not_newline((u % 16) as nat);
        }
        if c == '\n' {
            assert(u == 0x0a);
        }
        assert(single_line(json_escape(c)));
        lemma_concat_single_line(json_escaped(s.drop_last()), json_escape(c));
    }
}

proof fn lemma_json_string_single_line(s: Seq<char>)
    ensures
        single_line(json_string(s)),
{
    lemma_json_escaped_single_line(s);
    lemma_concat_single_line(seq!['"'], json_escaped(s));
    lemma_concat_single_line(seq!['"'] + json_escaped(s), seq!['"']);
}

proof fn lemma_ends_line(body: Seq<char>)
    requires
        single_line(body),
    ensures
        one_line(body + "\n"@),
{
    reveal_strlit("\n");
    assert((body + "\n"@).drop_last() =~= body);
}

proof fn lemma_members_single_line(ms: Seq<(Seq<char>, Seq<char>)>)
    requires
        forall|i: int| 0 <= i < ms.len() ==> single_line(#[trigger] ms[i].0) && single_line(ms[i].1),
    ensures
        single_line(members_json(ms)),
    decreases ms.len(),
{
    reveal_strlit(":");
    reveal_strlit(",");
    if ms.len() > 0 {
        let last = ms[ms.len() - 1];
        lemma_json_string_single_line(last.0);
        lemma_concat_single_line(json_string(last.0), ":"@);
        lemma_concat_single_line(json_string(last.0) + ":"@, last.1);
        if ms.len() > 1 {
            let init = ms.drop_last();
            assert forall|i: int| 0 <= i < init.len() implies single_line(#[trigger] init[i].0)
                && single_line(init[i].1) by {
                assert(init[i] == ms[i]);
            }
            lemma_members_single_line(init);
            lemma_concat_single_line(members_json(init), ","@);
            lemma_concat_single_line(members_json(init) + ","@, member_json(last.0, last.1));
        }
    }
}

proof fn lemma_object_one_line(ms: Seq<(Seq<char>, Seq<char>)>)
    requires
        forall|i: int| 0 <= i < ms.len() ==> single_line(#[trigger] ms[i].0) && single_line(ms[i].1),
    ensures
        one_line(json_object(ms) + "\n"@),
{
    reveal_strlit("{");
    reveal_strlit("}");
    lemma_members_single_line(ms);
    lemma_concat_single_line("{"@, members_json(ms));
    lemma_concat_single_line("{"@ + members_json(ms), "}"@);
    lemma_ends_line(json_object(ms));
}

/// With `--json`, each text message prints as exactly one line, one JSON
/// object, whatever line feeds the text holds.
pub proof fn law_json_text_is_one_line(text: Seq<char>)
    ensures
        one_line(text_output(text, true)),
{
    reveal_strlit("text");
    lemma_json_string_single_line(text);
    let ms = seq![("text"@, json_string(text))];
    assert(ms[0].0 == "text"@);
    lemma_object_one_line(ms);
}

/// Every register result prints as exactly one line, in every format.
pub proof fn law_register_result_is_one_line(address: u32, value: u8, json: bool, decimal: bool)
    ensures
        one_line(register_line(address, value, json, decimal)),
{
    let a = address as nat;
    let v = value as nat;
    lemma_digits_single_line(a, 10);
    lemma_digits_single_line(v, 10);
    lemma_digits_single_line(a, 16);
    lemma_digits_single_line(v, 16);
    reveal_strlit("0x");
    reveal_strlit("Address ");
    reveal_strlit("=");
    reveal_strlit("Address 0x");
    reveal_strlit("=0x");
    reveal_strlit("\n");
    reveal_strlit("address");
    reveal_strlit("value");
    if json {
        lemma_concat_single_line("0x"@, hex(a));
        lemma_concat_single_line("0x"@, hex(v));
        lemma_json_string_single_line("0x"@ + hex(a));
        lemma_json_string_single_line("0x"@ + hex(v));
        let ms = seq![("address"@, register_json(a, decimal)), ("value"@, register_json(v, decimal))];
        assert(ms[0] == ("address"@, register_json(a, decimal)));
        assert(ms[1] == ("value"@, register_json(v, decimal)));
        lemma_object_one_line(ms);
    } else {
        let (x, y, p, q) = if decimal {
            (dec(a), dec(v), "Address "@, "="@)
        } else {
            (hex(a), hex(v), "Address 0x"@, "=0x"@)
        };
        lemma_concat_single_line(p, x);
        lemma_concat_single_line(p + x, q);
        lemma_concat_single_line(p + x + q, y);
        lemma_ends_line(p + x + q + y);
    }
}

/// The character stands for itself in a JSON string literal.
spec fn json_plain(c: char) -> bool {
    c != '"' && c != '\\' && c as u32 >= 0x20
}

proof fn lemma_json_escaped_plain(s: Seq<char>)
    requires
        forall|i: int| 0 <= i < s.len() ==> json_plain(#[trigger] s[i]),
    ensures
        json_escaped(s) == s,
    decreases s.len(),
{
    if s.len() > 0 {
        let init = s.drop_last();
        assert forall|i: int| 0 <= i < init.len() implies json_plain(#[trigger] init[i]) by {
            assert(init[i] == s[i]);
        }
        lemma_json_escaped_plain(init);
        assert(json_plain(s[s.len() - 1]));
        assert(init.push(s.last()) =~= s);
    }
}

proof fn lemma_digits_plain(n: nat, radix: nat)
    requires
        2 <= radix <= 16,
    ensures
        forall|i: int| 0 <= i < digits(n, radix).len() ==> json_plain(#[trigger] digits(n, radix)[i]),
{
    lemma_digits_read_back(n, radix);
    let ds = digits(n, radix);
    assert forall|i: int| 0 <= i < ds.len() implies json_plain(#[trigger] ds[i]) by {
        assert(digit_value(ds[i], radix) is Some);
    }
}

proof fn lemma_two_members(k1: Seq<char>, v1: Seq<char>, k2: Seq<char>, v2: Seq<char>)
    ensures
        json_object(seq![(k1, v1), (k2, v2)]) == "{"@ + json_string(k1) + ":"@ + v1 + ","@
            + json_string(k2) + ":"@ + v2 + "}"@,
{
    let ms = seq![(k1, v1), (k2, v2)];
    assert(ms.drop_last() =~= seq![(k1, v1)]);
    assert(members_json(ms.drop_last()) == member_json(k1, v1));
    assert(ms.last() == (k2, v2));
    assert(members_json(ms) == member_json(k1, v1) + ","@ + member_json(k2, v2));
    assert(json_object(ms) =~= "{"@ + json_string(k1) + ":"@ + v1 + ","@ + json_string(k2) + ":"@
        + v2 + "}"@);
}

proof fn lemma_plain_string(t: Seq<char>)
    requires
        forall|i: int| 0 <= i < t.len() ==> json_plain(#[trigger] t[i]),
    ensures
        json_string(t) == seq!['"'] + t + seq!['"'],
{
    lemma_json_escaped_plain(t);
}

proof fn lemma_keys_plain()
    ensures
        json_string("address"@) == seq!['"'] + "address"@ + seq!['"'],
        json_string("value"@) == seq!['"'] + "value"@ + seq!['"'],
{
    reveal_strlit("address");
    reveal_strlit("value");
    let key_a = "address"@;
    let key_v = "value"@;
    assert forall|i: int| 0 <= i < key_a.len() implies json_plain(#[trigger] key_a[i]) by {
        if i == 0 {} else if i == 1 {} else if i == 2 {} else if i == 3 {} else if i == 4 {}
        else if i == 5 {} else {}
    }
    assert forall|i: int| 0 <= i < key_v.len() implies json_plain(#[trigger] key_v[i]) by {
        if i == 0 {} else if i == 1 {} else if i == 2 {} else if i == 3 {} else {}
    }
    lemma_plain_string(key_a);
    lemma_plain_string(key_v);
}

proof fn lemma_hex_string_plain(n: nat)
    ensures
        register_json(n, false) == seq!['"', '0', 'x'] + hex(n) + seq!['"'],
{
    reveal_strlit("0x");
    lemma_digits_plain(n, 16);
    let h = "0x"@ + hex(n);
    assert forall|i: int| 0 <= i < h.len() implies json_plain(#[trigger] h[i]) by {
        if i >= 2 {
            assert(h[i] == hex(n)[i - 2]);
        }
    }
    lemma_plain_string(h);
    assert(seq!['"'] + h + seq!['"'] =~= seq!['"', '0', 'x'] + hex(n) + seq!['"']);
}

proof fn lemma_json_hex_line(address: u32, value: u8)
    ensures
        register_line(address, value, true, false) == "{\"address\":\"0x"@ + hex(address as nat)
            + "\",\"value\":\"0x"@ + hex(value as nat) + "\"}\n"@,
{
    let a = address as nat;
    let v = value as nat;
    lemma_keys_plain();
    lemma_hex_string_plain(a);
    lemma_hex_string_plain(v);
    lemma_two_members("address"@, register_json(a, false), "value"@, register_json(v, false));
    reveal_strlit("address");
    reveal_strlit("value");
    reveal_strlit(":");
    reveal_strlit(",");
    reveal_strlit("{");
    reveal_strlit("}");
    reveal_strlit("\n");
    reveal_strlit("{\"address\":\"0x");
    reveal_strlit("\",\"value\":\"0x");
    reveal_strlit("\"}\n");
    assert(register_line(address, value, true, false) =~= "{\"address\":\"0x"@ + hex(a)
        + "\",\"value\":\"0x"@ + hex(v) + "\"}\n"@);
}

proof fn lemma_json_dec_line(address: u32, value: u8)
    ensures
        register_line(address, value, true, true) == "{\"address\":"@ + dec(address as nat)
            + ",\"value\":"@ + dec(value as nat) + "}\n"@,
{
    let a = address as nat;
    let v = value as nat;
    lemma_keys_plain();
    lemma_two_members("address"@, register_json(a, true), "value"@, register_json(v, true));
    reveal_strlit("address");
    reveal_strlit("value");
    reveal_strlit(":");
    reveal_strlit(",");
    reveal_strlit("{");
    reveal_strlit("}");
    reveal_strlit("\n");
    reveal_strlit("{\"address\":");
    reveal_strlit(",\"value\":");
    reveal_strlit("}\n");
    assert(register_line(address, value, true, true) =~= "{\"address\":"@ + dec(a) + ",\"value\":"@
        + dec(v) + "}\n"@);
}

/// A register result prints the whole address and the value, in each
/// format: `Address 0x<a>=0x<v>`, `Address <a>=<v>` with decimal output,
/// and with JSON the object `{"address":"0x<a>","value":"0x<v>"}`, or with
/// decimal output `{"address":<a>,"value":<v>}`, each followed by a line
/// feed. The digits are those of the full address and value, and they read
/// back as those numbers.
pub proof fn law_register_result_shows_address_and_value(address: u32, value: u8)
    ensures
        register_line(address, value, false, false) == "Address 0x"@ + hex(address as nat) + "=0x"@
            + hex(value as nat) + "\n"@,
        register_line(address, value, false, true) == "Address "@ + dec(address as nat) + "="@ + dec(
            value as nat,
        ) + "\n"@,
        register_line(address, value, true, false) == "{\"address\":\"0x"@ + hex(address as nat)
            + "\",\"value\":\"0x"@ + hex(value as nat) + "\"}\n"@,
        register_line(address, value, true, true) == "{\"address\":"@ + dec(address as nat)
            + ",\"value\":"@ + dec(value as nat) + "}\n"@,
        digits_value(hex(address as nat), 16) == address,
        digits_value(dec(address as nat), 10) == address,
        digits_value(hex(value as nat), 16) == value,
        digits_value(dec(value as nat), 10) == value,
{
    lemma_digits_read_back(address as nat, 10);
    lemma_digits_read_back(address as nat, 16);
    lemma_digits_read_back(value as nat, 10);
    lemma_digits_read_back(value as nat, 16);
    lemma_json_hex_line(address, value);
    lemma_json_dec_line(address, value);
}

/// Plain device text prints as it came, with a line feed added only where
/// the text does not already end in one: the output starts with the whole
/// text, ends in a line feed, and is at most one character longer.
pub proof fn law_plain_text_gains_only_a_missing_line_feed(text: Seq<char>)
    ensures
        text_output(text, false).take(text.len() as int) == text,
        text_output(text, false).last() == '\n',
        text.len() > 0 && text.last() == '\n' ==> text_output(text, false) == text,
        !(text.len() > 0 && text.last() == '\n') ==> text_output(text, false).len() == text.len() + 1,
{
    reveal_strlit("\n");
    assert((text + "\n"@).take(text.len() as int) =~= text);
    assert(text.take(text.len() as int) =~= text);
}

} // verus!
