//! Character-level building blocks: Unicode white space, digit strings in a
//! radix, word splitting, and appending to strings.
use vstd::prelude::*;
use vstd::string::StringExecFns;
use vstd::utf8::*;

verus! {

broadcast use vstd::string::group_string_axioms;

/// Copies the characters of `s` into a vector.
pub fn chars_of(s: &str) -> (r: Vec<char>)
    ensures
        r@ == s@,
{
    let mut r: Vec<char> = Vec::new();
    for c in it: s.chars()
        invariant
            it.seq() == s@,
            r@ == it.seq().take(it.index() as int),
    {
        r.push(c);
    }
    r
}

/// Appends one character to a string (`String::push`).
#[verifier::external_body]
pub fn push_char(s: &mut String, c: char)
    ensures
        final(s)@ == old(s)@.push(c),
{
    s.push(c);
}

/// Appends a string slice to a string.
pub fn push_str(s: &mut String, t: &str)
    ensures
        final(s)@ == old(s)@ + t@,
{
    s.append(t);
}

/// The Unicode `White_Space` property, the set that `char::is_whitespace`,
/// `str::trim` and `str::split_whitespace` use.
pub open spec fn is_white_space(c: char) -> bool {
    let u = c as u32;
    ||| 0x09 <= u <= 0x0d
    ||| u == 0x20
    ||| u == 0x85
    ||| u == 0xa0
    ||| u == 0x1680
    ||| 0x2000 <= u <= 0x200a
    ||| u == 0x2028
    ||| u == 0x2029
    ||| u == 0x202f
    ||| u == 0x205f
    ||| u == 0x3000
}

pub fn white_space(c: char) -> (b: bool)
    ensures
        b == is_white_space(c),
{
    let u = c as u32;
    (0x09 <= u && u <= 0x0d) || u == 0x20 || u == 0x85 || u == 0xa0 || u == 0x1680 || (0x2000
        <= u && u <= 0x200a) || u == 0x2028 || u == 0x2029 || u == 0x202f || u == 0x205f || u
        == 0x3000
}

/// The lower-case digit for `d` in radixes up to 16.
pub open spec fn digit_char(d: nat) -> char {
    seq!['0', '1', '2', '3', '4', '5', '6', '7', '8', '9', 'a', 'b', 'c', 'd', 'e', 'f'][d as int]
}

fn digit_char_exec(d: u64) -> (c: char)
    requires
        d < 16,
    ensures
        c == digit_char(d as nat),
{
    if d == 0 { '0' }
    else if d == 1 { '1' }
    else if d == 2 { '2' }
    else if d == 3 { '3' }
    else if d == 4 { '4' }
    else if d == 5 { '5' }
    else if d == 6 { '6' }
    else if d == 7 { '7' }
    else if d == 8 { '8' }
    else if d == 9 { '9' }
    else if d == 10 { 'a' }
    else if d == 11 { 'b' }
    else if d == 12 { 'c' }
    else if d == 13 { 'd' }
    else if d == 14 { 'e' }
    else { 'f' }
}

/// The digits of `n` in `radix`, most significant first, without leading
/// zeroes ("0" for zero); lower-case letters above nine.
pub open spec fn digits(n: nat, radix: nat) -> Seq<char>
    recommends
        2 <= radix <= 16,
    decreases n,
    when radix >= 2
{
    if n < radix {
        seq![digit_char(n)]
    } else {
        proof {
            vstd::arithmetic::div_mod::lemma_div_decreases(n as int, radix as int);
        }
        digits(n / radix, radix).push(digit_char(n % radix))
    }
}

/// Hexadecimal digits as `{:x}` prints them.
pub open spec fn hex(n: nat) -> Seq<char> {
    digits(n, 16)
}

/// Decimal digits as `{}` prints an unsigned integer.
pub open spec fn dec(n: nat) -> Seq<char> {
    digits(n, 10)
}

/// Hexadecimal digits padded with zeroes to at least two, as `{:02x}` prints them.
pub open spec fn hex2(n: nat) -> Seq<char> {
    if n < 16 {
        seq!['0', digit_char(n)]
    } else {
        hex(n)
    }
}

/// Appends the digits of `n` in `radix`.
pub fn push_digits(out: &mut String, n: u64, radix: u64)
    requires
        2 <= radix <= 16,
    ensures
        final(out)@ == old(out)@ + digits(n as nat, radix as nat),
    decreases n,
{
    if n >= radix {
        proof {
            vstd::arithmetic::div_mod::lemma_div_decreases(n as int, radix as int);
        }
        push_digits(out, n / radix, radix);
    }
    let d = n % radix;
    proof {
        if n < radix {
            vstd::arithmetic::div_mod::lemma_small_mod(n as nat, radix as nat);
        }
    }
    push_char(out, digit_char_exec(d));
    assert(final(out)@ =~= old(out)@ + digits(n as nat, radix as nat));
}

pub fn push_hex(out: &mut String, n: u64)
    ensures
        final(out)@ == old(out)@ + hex(n as nat),
{
    push_digits(out, n, 16);
}

pub fn push_dec(out: &mut String, n: u64)
    ensures
        final(out)@ == old(out)@ + dec(n as nat),
{
    push_digits(out, n, 10);
}

pub fn push_hex2(out: &mut String, n: u8)
    ensures
        final(out)@ == old(out)@ + hex2(n as nat),
{
    if n < 16 {
        push_char(out, '0');
        push_char(out, digit_char_exec(n as u64));
        assert(final(out)@ =~= old(out)@ + hex2(n as nat));
    } else {
        push_hex(out, n as u64);
    }
}

/// The value of `c` as a digit in `radix` (at most 36), as `char::to_digit`
/// gives it: `0`-`9`, then `a`-`z` or `A`-`Z` for ten and up.
pub open spec fn digit_value(c: char, radix: nat) -> Option<nat> {
    let u = c as u32;
    let v: nat = if 0x30 <= u <= 0x39 {
        (u - 0x30) as nat
    } else if 0x61 <= u <= 0x7a {
        (u - 0x61 + 10) as nat
    } else if 0x41 <= u <= 0x5a {
        (u - 0x41 + 10) as nat
    } else {
        36
    };
    if v < radix {
        Some(v)
    } else {
        None
    }
}

pub fn digit_of(c: char, radix: u64) -> (r: Option<u64>)
    requires
        radix <= 36,
    ensures
        match r {
            Some(v) => digit_value(c, radix as nat) == Some(v as nat),
            None => digit_value(c, radix as nat) is None,
        },
{
    let u = c as u32;
    let v: u64 = if 0x30 <= u && u <= 0x39 {
        (u - 0x30) as u64
    } else if 0x61 <= u && u <= 0x7a {
        (u - 0x61 + 10) as u64
    } else if 0x41 <= u && u <= 0x5a {
        (u - 0x41 + 10) as u64
    } else {
        36
    };
    if v < radix {
        Some(v)
    } else {
        None
    }
}

/// Every character of `ds` is a digit in `radix`.
pub open spec fn all_digits(ds: Seq<char>, radix: nat) -> bool {
    forall|i: int| 0 <= i < ds.len() ==> (#[trigger] digit_value(ds[i], radix)) is Some
}

/// The number that the digits `ds` write in `radix`, most significant first.
pub open spec fn digits_value(ds: Seq<char>, radix: nat) -> nat
    decreases ds.len(),
{
    if ds.len() == 0 {
        0
    } else {
        digits_value(ds.drop_last(), radix) * radix + digit_value(ds.last(), radix).unwrap()
    }
}

/// Appending digits never makes the number smaller.
pub proof fn lemma_digits_value_grows(ds: Seq<char>, radix: nat, k: int)
    requires
        radix >= 1,
        0 <= k <= ds.len(),
    ensures
        digits_value(ds.take(k), radix) <= digits_value(ds, radix),
    decreases ds.len(),
{
    if k < ds.len() {
        let p = ds.drop_last();
        assert(p.take(k) =~= ds.take(k));
        lemma_digits_value_grows(p, radix, k);
        let x = digits_value(p, radix);
        let d = digit_value(ds.last(), radix).unwrap();
        assert(x <= x * radix + d) by (nonlinear_arith)
            requires
                radix >= 1,
        ;
    } else {
        assert(ds.take(k) =~= ds);
    }
}

/// Reads `ds[start..]` as digits in `radix`: the value when every character is
/// a digit and the value is at most `max`, else None.
pub fn read_digits(ds: &Vec<char>, start: usize, radix: u64, max: u64) -> (r: Option<u64>)
    requires
        start <= ds@.len(),
        2 <= radix <= 16,
        max <= u32::MAX,
    ensures
        r is Some <==> all_digits(ds@.skip(start as int), radix as nat) && digits_value(
            ds@.skip(start as int),
            radix as nat,
        ) <= max,
        r matches Some(v) ==> v == digits_value(ds@.skip(start as int), radix as nat),
{
    let ghost s = ds@.skip(start as int);
    let mut acc: u64 = 0;
    let mut i = start;
    assert(s.take(0) =~= Seq::<char>::empty());
    while i < ds.len()
        invariant
            start <= i <= ds@.len(),
            s == ds@.skip(start as int),
            2 <= radix <= 16,
            max <= u32::MAX,
            acc <= max,
            all_digits(s.take(i - start), radix as nat),
            acc == digits_value(s.take(i - start), radix as nat),
        decreases ds@.len() - i,
    {
        let k = i - start;
        match digit_of(ds[i], radix) {
            None => {
                assert(s[k as int] == ds@[i as int]);
                return None;
            },
            Some(d) => {
                assert(s.take(k + 1).drop_last() =~= s.take(k as int));
                assert(s.take(k + 1).last() == ds@[i as int]);
                assert(acc * radix + d <= u32::MAX * 16 + 16) by (nonlinear_arith)
                    requires
                        acc <= u32::MAX,
                        radix <= 16,
                        d < 16,
                ;
                let next = acc * radix + d;
                if next > max {
                    proof {
                        lemma_digits_value_grows(s, radix as nat, k + 1);
                    }
                    return None;
                }
                acc = next;
                i = i + 1;
                assert forall|j: int| 0 <= j < s.take(i - start).len() implies (#[trigger] digit_value(
                    s.take(i - start)[j],
                    radix as nat,
                )) is Some by {
                    if j < k {
                        assert(s.take(i - start)[j] == s.take(k as int)[j]);
                    }
                }
            },
        }
    }
    assert(s.take(i - start) =~= s);
    Some(acc)
}

/// What `from_str_radix` reads for an unsigned integer type whose largest
/// value is `max`: an optional `+`, then at least one digit, the value at
/// most `max`.
pub open spec fn radix_value(s: Seq<char>, radix: nat, max: nat) -> Option<nat> {
    let ds = if s.len() > 0 && s[0] == '+' {
        s.drop_first()
    } else {
        s
    };
    if ds.len() > 0 && all_digits(ds, radix) && digits_value(ds, radix) <= max {
        Some(digits_value(ds, radix))
    } else {
        None
    }
}

/// Reads `cs[start..]` as `from_str_radix` does for an unsigned type whose
/// largest value is `max`.
pub fn from_radix(cs: &Vec<char>, start: usize, radix: u64, max: u64) -> (r: Option<u64>)
    requires
        start <= cs@.len(),
        2 <= radix <= 16,
        max <= u32::MAX,
    ensures
        match r {
            Some(v) => radix_value(cs@.skip(start as int), radix as nat, max as nat) == Some(v as nat),
            None => radix_value(cs@.skip(start as int), radix as nat, max as nat) is None,
        },
{
    let ghost s = cs@.skip(start as int);
    let mut first = start;
    if start < cs.len() && cs[start] == '+' {
        first = start + 1;
        assert(s.drop_first() =~= cs@.skip(first as int));
    }
    if first == cs.len() {
        return None;
    }
    read_digits(cs, first, radix, max)
}

/// Whether `cs` holds exactly the characters of `lit`.
pub fn same_chars(cs: &Vec<char>, lit: &str) -> (b: bool)
    ensures
        b == (cs@ == lit@),
{
    let ls = chars_of(lit);
    if cs.len() != ls.len() {
        return false;
    }
    for i in 0..cs.len()
        invariant
            ls@ == lit@,
            cs@.len() == ls@.len(),
            forall|j: int| 0 <= j < i ==> cs@[j] == ls@[j],
    {
        if cs[i] != ls[i] {
            return false;
        }
    }
    assert(cs@ =~= lit@);
    true
}

/// Splitting a text into words, one character at a time: the words finished
/// so far and the word under way.
pub open spec fn split_state(s: Seq<char>) -> (Seq<Seq<char>>, Seq<char>)
    decreases s.len(),
{
    if s.len() == 0 {
        (Seq::empty(), Seq::empty())
    } else {
        let (done, cur) = split_state(s.drop_last());
        if is_white_space(s.last()) {
            if cur.len() > 0 {
                (done.push(cur), Seq::empty())
            } else {
                (done, Seq::empty())
            }
        } else {
            (done, cur.push(s.last()))
        }
    }
}

/// The words of a text: its maximal runs of characters that are not white
/// space, in order, as `str::split_whitespace` yields them.
pub open spec fn words(s: Seq<char>) -> Seq<Seq<char>> {
    let (done, cur) = split_state(s);
    if cur.len() > 0 {
        done.push(cur)
    } else {
        done
    }
}

pub open spec fn views(v: Seq<Vec<char>>) -> Seq<Seq<char>> {
    v.map_values(|w: Vec<char>| w@)
}

/// Splits a text into its words.
pub fn split_words(text: &str) -> (r: Vec<Vec<char>>)
    ensures
        views(r@) == words(text@),
{
    let cs = chars_of(text);
    let mut done: Vec<Vec<char>> = Vec::new();
    let mut cur: Vec<char> = Vec::new();
    assert(cs@.take(0) =~= Seq::<char>::empty());
    for i in 0..cs.len()
        invariant
            cs@ == text@,
            (views(done@), cur@) == split_state(cs@.take(i as int)),
    {
        let c = cs[i];
        assert(cs@.take(i + 1).drop_last() =~= cs@.take(i as int));
        assert(cs@.take(i + 1).last() == c);
        if white_space(c) {
            if cur.len() > 0 {
                let w = cur;
                cur = Vec::new();
                done.push(w);
                assert(views(done@) =~= split_state(cs@.take(i as int)).0.push(w@));
            } else {
                cur = Vec::new();
            }
            assert(cur@ =~= Seq::<char>::empty());
        } else {
            cur.push(c);
        }
    }
    assert(cs@.take(cs@.len() as int) =~= cs@);
    if cur.len() > 0 {
        let ghost before = views(done@);
        let w = cur;
        done.push(w);
        assert(views(done@) =~= before.push(w@));
    }
    done
}

/// No byte of the UTF-8 encoding of a scalar is zero, unless the scalar is
/// zero.
proof fn lemma_scalar_bytes_nonzero(c: u32)
    requires
        0 < c,
        is_scalar(c),
    ensures
        !encode_scalar(c).contains(0),
{
    let e = encode_scalar(c);
    if has_width_1_encoding(c) {
        assert(leading_byte_width_1(c) != 0) by (bit_vector)
            requires
                0 < c <= 0x7f,
        ;
        assert(e[0] != 0);
    } else {
        assert(leading_byte_width_2(c) != 0 && leading_byte_width_3(c) != 0
            && leading_byte_width_4(c) != 0 && last_continuation_byte(c) != 0
            && second_last_continuation_byte(c) != 0 && third_last_continuation_byte(c) != 0)
            by (bit_vector);
        assert(forall|i: int| 0 <= i < e.len() ==> e[i] != 0);
    }
}

/// The UTF-8 encoding of a text holds a zero byte only where the text holds
/// NUL.
pub proof fn lemma_utf8_without_nul(s: Seq<char>)
    requires
        !s.contains('\0'),
    ensures
        !encode_utf8(s).contains(0),
    decreases s.len(),
{
    if s.len() > 0 {
        let rest = s.drop_first();
        assert(!rest.contains('\0')) by {
            if rest.contains('\0') {
                let i = choose|i: int| 0 <= i < rest.len() && rest[i] == '\0';
                assert(s[i + 1] == '\0');
            }
        }
        lemma_utf8_without_nul(rest);
        assert(s[0] != '\0');
        let c = s[0] as u32;
        char_is_scalar(s[0]);
        if c == 0 {
            char_u32_cast(s[0], 0);
            char_u32_cast('\0', 0);
        }
        assert(c != 0);
        lemma_scalar_bytes_nonzero(c);
        let a = encode_scalar(c);
        let b = encode_utf8(rest);
        assert(encode_utf8(s) == a + b);
        assert forall|i: int| 0 <= i < (a + b).len() implies (a + b)[i] != 0 by {
            if i < a.len() {
                assert((a + b)[i] == a[i]);
                assert(!a.contains(0));
            } else {
                assert((a + b)[i] == b[i - a.len()]);
                assert(!b.contains(0));
            }
        }
    }
}

proof fn lemma_digit_read_back(d: nat, radix: nat)
    requires
        d < radix <= 16,
    ensures
        digit_value(digit_char(d), radix) == Some(d),
{
    let t = seq!['0', '1', '2', '3', '4', '5', '6', '7', '8', '9', 'a', 'b', 'c', 'd', 'e', 'f'];
    assert(digit_char(d) == t[d as int]);
    if d < 10 {
        assert(t[d as int] as u32 == 0x30 + d) by {
            if d == 0 {} else if d == 1 {} else if d == 2 {} else if d == 3 {} else if d == 4 {}
            else if d == 5 {} else if d == 6 {} else if d == 7 {} else if d == 8 {} else {}
        }
    } else {
        assert(t[d as int] as u32 == 0x61 + d - 10) by {
            if d == 10 {} else if d == 11 {} else if d == 12 {} else if d == 13 {} else if d == 14 {}
            else {}
        }
    }
}

/// The digits that `digits` writes read back, in the same radix, as the number.
pub proof fn lemma_digits_read_back(n: nat, radix: nat)
    requires
        2 <= radix <= 16,
    ensures
        digits(n, radix).len() > 0,
        all_digits(digits(n, radix), radix),
        digits_value(digits(n, radix), radix) == n,
    decreases n,
{
    let s = digits(n, radix);
    if n < radix {
        lemma_digit_read_back(n, radix);
        assert(s.drop_last() =~= Seq::<char>::empty());
        assert(digits_value(s.drop_last(), radix) == 0);
        assert(0 * radix == 0) by (nonlinear_arith);
    } else {
        vstd::arithmetic::div_mod::lemma_div_decreases(n as int, radix as int);
        lemma_digits_read_back(n / radix, radix);
        vstd::arithmetic::div_mod::lemma_mod_bound(n as int, radix as int);
        lemma_digit_read_back(n % radix, radix);
        assert(s.drop_last() =~= digits(n / radix, radix));
        vstd::arithmetic::div_mod::lemma_fundamental_div_mod(n as int, radix as int);
        assert(digits_value(s, radix) == (n / radix) * radix + n % radix) by (nonlinear_arith)
            requires
                digits_value(s, radix) == digits_value(s.drop_last(), radix) * radix
                    + digit_value(s.last(), radix).unwrap(),
                digits_value(s.drop_last(), radix) == n / radix,
                digit_value(s.last(), radix) == Some(n % radix),
        ;
        assert((n / radix) * radix + n % radix == n) by (nonlinear_arith)
            requires
                n == radix * (n / radix) + n % radix,
        ;
        assert forall|i: int| 0 <= i < s.len() implies (#[trigger] digit_value(s[i], radix))
            is Some by {
            if i < s.len() - 1 {
                assert(s[i] == digits(n / radix, radix)[i]);
            }
        }
    }
}

/// The text holds no white space.
pub open spec fn no_white_space(s: Seq<char>) -> bool {
    forall|i: int| 0 <= i < s.len() ==> !is_white_space(#[trigger] s[i])
}

/// Digits are not white space.
pub proof fn lemma_digits_no_white_space(s: Seq<char>, radix: nat)
    requires
        radix <= 36,
        all_digits(s, radix),
    ensures
        no_white_space(s),
{
    assert forall|i: int| 0 <= i < s.len() implies !is_white_space(#[trigger] s[i]) by {
        assert(digit_value(s[i], radix) is Some);
    }
}

/// Characters that are not white space extend the word under way.
pub proof fn lemma_split_word(p: Seq<char>, w: Seq<char>)
    requires
        no_white_space(w),
    ensures
        split_state(p + w) == (split_state(p).0, split_state(p).1 + w),
    decreases w.len(),
{
    if w.len() == 0 {
        assert(p + w =~= p);
        assert(split_state(p).1 + w =~= split_state(p).1);
    } else {
        let w0 = w.drop_last();
        assert(no_white_space(w0)) by {
            assert forall|i: int| 0 <= i < w0.len() implies !is_white_space(#[trigger] w0[i]) by {
                assert(w0[i] == w[i]);
            }
        }
        lemma_split_word(p, w0);
        assert((p + w).drop_last() =~= p + w0);
        assert((p + w).last() == w[w.len() - 1]);
        assert(!is_white_space(w[w.len() - 1]));
        assert(split_state(p).1 + w0.push(w.last()) =~= split_state(p).1 + w);
    }
}

/// A white-space character ends the word under way.
pub proof fn lemma_split_space(p: Seq<char>, c: char)
    requires
        is_white_space(c),
    ensures
        split_state(p.push(c)) == (if split_state(p).1.len() > 0 {
            split_state(p).0.push(split_state(p).1)
        } else {
            split_state(p).0
        }, Seq::<char>::empty()),
{
    assert(p.push(c).drop_last() =~= p);
}

/// `k` zero digits.
pub open spec fn zeros(k: nat) -> Seq<char> {
    Seq::new(k, |i: int| '0')
}

/// Leading zeroes change neither whether a text is all digits nor its value.
pub proof fn lemma_leading_zeros(k: nat, ds: Seq<char>, radix: nat)
    requires
        2 <= radix <= 16,
        all_digits(ds, radix),
    ensures
        all_digits(zeros(k) + ds, radix),
        digits_value(zeros(k) + ds, radix) == digits_value(ds, radix),
    decreases ds.len(), k,
{
    let s = zeros(k) + ds;
    assert(digit_value('0', radix) == Some(0nat));
    assert forall|i: int| 0 <= i < s.len() implies (#[trigger] digit_value(s[i], radix)) is Some by {
        if i < k {
            assert(s[i] == '0');
        } else {
            assert(s[i] == ds[i - k]);
        }
    }
    if ds.len() > 0 {
        let init = ds.drop_last();
        assert(all_digits(init, radix)) by {
            assert forall|i: int| 0 <= i < init.len() implies (#[trigger] digit_value(init[i], radix))
                is Some by {
                assert(init[i] == ds[i]);
            }
        }
        lemma_leading_zeros(k, init, radix);
        assert(s.drop_last() =~= zeros(k) + init);
        assert(s.last() == ds.last());
    } else if k > 0 {
        assert(s =~= zeros(k));
        assert(s.drop_last() =~= zeros((k - 1) as nat) + ds);
        lemma_leading_zeros((k - 1) as nat, ds, radix);
        assert(0 * radix == 0) by (nonlinear_arith);
    } else {
        assert(s =~= ds);
    }
}

/// The upper-case digit for `d` below 16, as `{:X}` prints it.
pub open spec fn digit_char_upper(d: nat) -> char {
    seq!['0', '1', '2', '3', '4', '5', '6', '7', '8', '9', 'A', 'B', 'C', 'D', 'E', 'F'][d as int]
}

/// Hexadecimal digits in upper case, as `{:X}` prints them.
pub open spec fn hex_upper(n: nat) -> Seq<char>
    decreases n,
{
    if n < 16 {
        seq![digit_char_upper(n)]
    } else {
        hex_upper(n / 16).push(digit_char_upper(n % 16))
    }
}

proof fn lemma_upper_digit_read_back(d: nat)
    requires
        d < 16,
    ensures
        digit_value(digit_char_upper(d), 16) == Some(d),
{
    let t = seq!['0', '1', '2', '3', '4', '5', '6', '7', '8', '9', 'A', 'B', 'C', 'D', 'E', 'F'];
    assert(digit_char_upper(d) == t[d as int]);
    if d < 10 {
        assert(t[d as int] as u32 == 0x30 + d) by {
            if d == 0 {} else if d == 1 {} else if d == 2 {} else if d == 3 {} else if d == 4 {}
            else if d == 5 {} else if d == 6 {} else if d == 7 {} else if d == 8 {} else {}
        }
    } else {
        assert(t[d as int] as u32 == 0x41 + d - 10) by {
            if d == 10 {} else if d == 11 {} else if d == 12 {} else if d == 13 {} else if d == 14 {}
            else {}
        }
    }
}

/// Upper-case hexadecimal digits read back as the number.
pub proof fn lemma_hex_upper_read_back(n: nat)
    ensures
        hex_upper(n).len() > 0,
        all_digits(hex_upper(n), 16),
        digits_value(hex_upper(n), 16) == n,
    decreases n,
{
    let s = hex_upper(n);
    if n < 16 {
        lemma_upper_digit_read_back(n);
        assert(s.drop_last() =~= Seq::<char>::empty());
        assert(digits_value(s.drop_last(), 16) == 0);
    } else {
        lemma_hex_upper_read_back(n / 16);
        lemma_upper_digit_read_back(n % 16);
        assert(s.drop_last() =~= hex_upper(n / 16));
        assert((n / 16) * 16 + n % 16 == n);
        assert forall|i: int| 0 <= i < s.len() implies (#[trigger] digit_value(s[i], 16)) is Some by {
            if i < s.len() - 1 {
                assert(s[i] == hex_upper(n / 16)[i]);
            }
        }
    }
}

/// A white-space character never starts or ends a word on its own: the
/// words of a text are unchanged by one at its end.
pub proof fn lemma_words_trailing_space(x: Seq<char>, c: char)
    requires
        is_white_space(c),
    ensures
        words(x.push(c)) == words(x),
{
    lemma_split_space(x, c);
}

/// The words of a text are unchanged by white space at its end.
pub proof fn lemma_words_trailing_white_space(x: Seq<char>, tail: Seq<char>)
    requires
        forall|i: int| 0 <= i < tail.len() ==> is_white_space(#[trigger] tail[i]),
    ensures
        words(x + tail) == words(x),
    decreases tail.len(),
{
    if tail.len() == 0 {
        assert(x + tail =~= x);
    } else {
        let init = tail.drop_last();
        lemma_words_trailing_white_space(x, init);
        assert(x + tail =~= (x + init).push(tail.last()));
        lemma_words_trailing_space(x + init, tail.last());
    }
}

} // verus!
