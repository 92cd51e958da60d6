use vstd::prelude::*;
use vstd::string::StringExecFns;

verus! {

/// The decimal digits of `n`.
pub open spec fn digits(n: nat) -> Seq<char>
    decreases n,
{
    if n < 10 {
        seq![(48 + n) as char]
    } else {
        digits(n / 10) + seq![(48 + n % 10) as char]
    }
}

/// The last `k` decimal digits of `n`, with leading zeros.
pub open spec fn padded_digits(n: nat, k: nat) -> Seq<char>
    decreases k,
{
    if k == 0 {
        Seq::empty()
    } else {
        padded_digits(n / 10, (k - 1) as nat) + seq![(48 + n % 10) as char]
    }
}

/// `v` in decimal, with a minus sign when negative.
pub open spec fn signed_digits(v: int) -> Seq<char> {
    if v < 0 {
        seq!['-'] + digits((-v) as nat)
    } else {
        digits(v as nat)
    }
}

/// Ten to the power `k`.
pub open spec fn pow10(k: nat) -> nat
    decreases k,
{
    if k == 0 {
        1
    } else {
        10 * pow10((k - 1) as nat)
    }
}

/// `n / d` rounded to the nearest integer, ties to the even one.
pub open spec fn round_half_even(n: nat, d: nat) -> nat {
    let q = n / d;
    let r = n % d;
    if 2 * r > d || (2 * r == d && q % 2 == 1) {
        q + 1
    } else {
        q
    }
}

/// `q / 10^k` written with `k` decimals.
pub open spec fn fixed_point(q: nat, k: nat) -> Seq<char> {
    digits(q / pow10(k)) + if k == 0 {
        Seq::empty()
    } else {
        seq!['.'] + padded_digits(q % pow10(k), k)
    }
}

/// The binary unit of a byte count of size `a`: its exponent of 1024 and
/// its name.
pub open spec fn unit_of(a: int) -> (nat, Seq<char>) {
    if a < 0x400 {
        (0, seq!['b', 'y', 't', 'e', 's'])
    } else if a < 0x10_0000 {
        (1, seq!['K', 'i', 'B'])
    } else if a < 0x4000_0000 {
        (2, seq!['M', 'i', 'B'])
    } else {
        (3, seq!['G', 'i', 'B'])
    }
}

/// The size in bytes of unit `u`.
pub open spec fn unit_size(u: nat) -> nat {
    if u == 1 {
        0x400
    } else if u == 2 {
        0x10_0000
    } else {
        0x4000_0000
    }
}

/// How many decimals three significant figures take for `a / unit_size(u)`:
/// two below 9.995, one below 99.95, else none (the bounds as the nearest
/// doubles, times the unit).
pub open spec fn decimals_of(a: int, u: nat) -> nat {
    let (low, high) = if u == 1 {
        (10235int, 102349int)
    } else if u == 2 {
        (10480518int, 104805172int)
    } else {
        (10732049531int, 107320495309int)
    };
    if a < low {
        2
    } else if a < high {
        1
    } else {
        0
    }
}

/// A byte count as IEC units to three significant figures, with the exact
/// count in brackets when `include_raw` holds and the unit is not bytes.
pub open spec fn bytes_text(count: int, include_raw: bool) -> Seq<char> {
    let a = if count < 0 {
        -count
    } else {
        count
    };
    let (u, name) = unit_of(a);
    let formatted = if u == 0 {
        signed_digits(count) + seq![' '] + name
    } else {
        let k = decimals_of(a, u);
        let q = round_half_even((a * pow10(k)) as nat, unit_size(u));
        (if count < 0 {
            seq!['-']
        } else {
            Seq::empty()
        }) + fixed_point(q, k) + seq![' '] + name
    };
    if include_raw && a >= 0x400 {
        formatted + seq![' ', '('] + signed_digits(count) + seq![' ', 'b', 'y', 't', 'e', 's', ')']
    } else {
        formatted
    }
}

/// `String::from_iter` over the characters: std documents that collecting
/// characters into a `String` gives the string of those characters, in order.
#[verifier::external_body]
pub(crate) fn chars_to_string(chars: Vec<char>) -> (s: String)
    ensures
        s@ == chars@,
{
    chars.into_iter().collect()
}

/// Append the decimal digits of `n`.
pub(crate) fn push_digits(out: &mut Vec<char>, n: u64)
    ensures
        final(out)@ == old(out)@ + digits(n as nat),
    decreases n,
{
    if n >= 10 {
        push_digits(out, n / 10);
    }
    let d = (n % 10) as u32;
    let c = char_of_digit(d);
    out.push(c);
    proof {
        if n >= 10 {
            assert(final(out)@ =~= old(out)@ + digits(n as nat));
        } else {
            assert(final(out)@ =~= old(out)@ + digits(n as nat));
        }
    }
}

/// The character of the decimal digit `d`.
fn char_of_digit(d: u32) -> (c: char)
    requires
        d < 10,
    ensures
        c == (48 + d) as char,
{
    match d {
        0 => '0',
        1 => '1',
        2 => '2',
        3 => '3',
        4 => '4',
        5 => '5',
        6 => '6',
        7 => '7',
        8 => '8',
        _ => '9',
    }
}

/// Append the last `k` decimal digits of `n`, with leading zeros.
fn push_padded(out: &mut Vec<char>, n: u64, k: u32)
    ensures
        final(out)@ == old(out)@ + padded_digits(n as nat, k as nat),
    decreases k,
{
    if k > 0 {
        push_padded(out, n / 10, k - 1);
        out.push(char_of_digit((n % 10) as u32));
        assert(final(out)@ =~= old(out)@ + padded_digits(n as nat, k as nat));
    } else {
        assert(final(out)@ =~= old(out)@ + padded_digits(n as nat, k as nat));
    }
}

/// Append the characters of `s`.
fn push_all(out: &mut Vec<char>, s: Seq<char>, text: &str)
    requires
        text@ == s,
    ensures
        final(out)@ == old(out)@ + s,
{
    let ghost o0 = out@;
    let n = text.unicode_len();
    let mut i: usize = 0;
    while i < n
        invariant
            text@ == s,
            n == s.len(),
            i <= n,
            out@ == o0 + s.take(i as int),
        decreases n - i,
    {
        out.push(text.get_char(i));
        i += 1;
        assert(out@ =~= o0 + s.take(i as int));
    }
    assert(s.take(n as int) =~= s);
}

/// Append `v` in decimal, with a minus sign when negative.
fn push_signed(out: &mut Vec<char>, v: i64)
    requires
        v != i64::MIN,
    ensures
        final(out)@ == old(out)@ + signed_digits(v as int),
{
    if v < 0 {
        out.push('-');
        push_digits(out, (-v) as u64);
        assert(final(out)@ =~= old(out)@ + signed_digits(v as int));
    } else {
        push_digits(out, v as u64);
    }
}

/// `a * scale / size` rounded to the nearest integer, ties to the even one.
fn rounded_ratio(a: u64, scale: u64, size: u64) -> (q: u64)
    requires
        a < 0x8000_0000_0000_0000,
        scale <= 100,
        size >= 0x400,
    ensures
        q == round_half_even((a * scale) as nat, size as nat),
{
    assert((a as int) * (scale as int) <= 0x8000_0000_0000_0000 * 100) by (nonlinear_arith)
        requires
            a < 0x8000_0000_0000_0000,
            scale <= 100,
    ;
    let n: u128 = a as u128 * scale as u128;
    let q0 = n / size as u128;
    assert(q0 <= n) by (nonlinear_arith)
        requires
            q0 == n / (size as u128),
            size >= 1,
    ;
    let r = n % size as u128;
    let q: u128 = if 2 * r > size as u128 || (2 * r == size as u128 && q0 % 2 == 1) {
        q0 + 1
    } else {
        q0
    };
    assert(q <= u64::MAX) by (nonlinear_arith)
        requires
            q <= q0 + 1,
            q0 == n / (size as u128),
            n == (a as int) * (scale as int),
            scale <= 100,
            size >= 0x400,
            a < 0x8000_0000_0000_0000,
    ;
    q as u64
}

/// The unit of a byte count of at least 1024: its size, the decimals that
/// three significant figures take, and ten to the power of those decimals.
fn unit_params(a: u64) -> (r: (u64, u32, u64))
    requires
        a >= 0x400,
    ensures
        r.0 == unit_size(unit_of(a as int).0),
        r.1 == decimals_of(a as int, unit_of(a as int).0),
        r.2 == pow10(r.1 as nat),
        1 <= r.2 <= 100,
{
    let (size, low, high): (u64, u64, u64) = if a < 0x10_0000 {
        (0x400, 10235, 102349)
    } else if a < 0x4000_0000 {
        (0x10_0000, 10480518, 104805172)
    } else {
        (0x4000_0000, 10732049531, 107320495309)
    };
    let k: u32 = if a < low {
        2
    } else if a < high {
        1
    } else {
        0
    };
    let scale: u64 = if k == 2 {
        100
    } else if k == 1 {
        10
    } else {
        1
    };
    assert(scale == pow10(k as nat)) by {
        reveal_with_fuel(pow10, 3);
    }
    (size, k, scale)
}

/// Append `q / scale` with `k` decimals.
fn push_fixed(out: &mut Vec<char>, q: u64, k: u32, scale: u64)
    requires
        scale == pow10(k as nat),
        scale >= 1,
    ensures
        final(out)@ == old(out)@ + fixed_point(q as nat, k as nat),
{
    let ghost o0 = out@;
    push_digits(out, q / scale);
    if k > 0 {
        out.push('.');
        push_padded(out, q % scale, k);
    }
    assert(out@ =~= o0 + fixed_point(q as nat, k as nat));
}

/// Append a byte count of at least 1024 in its unit, to three significant
/// figures, with the unit's name.
fn push_in_unit(out: &mut Vec<char>, count: i64, a: u64)
    requires
        count != i64::MIN,
        a == (if count < 0 {
            -count
        } else {
            count as int
        }),
        a >= 0x400,
    ensures
        ({
            let u = unit_of(a as int).0;
            let k = decimals_of(a as int, u);
            let q = round_half_even((a * pow10(k)) as nat, unit_size(u));
            final(out)@ == old(out)@ + (if count < 0 {
                seq!['-']
            } else {
                Seq::<char>::empty()
            }) + fixed_point(q, k) + seq![' '] + unit_of(a as int).1
        }),
{
    let (size, k, scale) = unit_params(a);
    let q = rounded_ratio(a, scale, size);
    let ghost o0 = out@;
    if count < 0 {
        out.push('-');
    }
    let ghost signed = out@;
    push_fixed(out, q, k, scale);
    let ghost fixed = out@;
    out.push(' ');
    if a < 0x10_0000 {
        out.push('K');
    } else if a < 0x4000_0000 {
        out.push('M');
    } else {
        out.push('G');
    }
    out.push('i');
    out.push('B');
    assert(out@ =~= fixed + seq![' '] + unit_of(a as int).1);
    assert(signed =~= o0 + (if count < 0 {
        seq!['-']
    } else {
        Seq::<char>::empty()
    }));
}

/// Format byte counts as IEC units to 3 significant figures.
pub fn format_bytes(count: i64, include_raw: bool) -> (s: String)
    requires
        count != i64::MIN,
    ensures
        s@ == bytes_text(count as int, include_raw),
{
    let a: u64 = if count < 0 {
        (-count) as u64
    } else {
        count as u64
    };
    let mut out: Vec<char> = Vec::new();
    if a < 0x400 {
        push_signed(&mut out, count);
        out.push(' ');
        out.push('b');
        out.push('y');
        out.push('t');
        out.push('e');
        out.push('s');
        assert(out@ =~= signed_digits(count as int) + seq![' '] + unit_of(a as int).1);
    } else {
        push_in_unit(&mut out, count, a);
        assert(out@ =~= Seq::<char>::empty() + (if count < 0 {
            seq!['-']
        } else {
            Seq::<char>::empty()
        }) + fixed_point(
            round_half_even((a * pow10(decimals_of(a as int, unit_of(a as int).0))) as nat, unit_size(unit_of(a as int).0)),
            decimals_of(a as int, unit_of(a as int).0),
        ) + seq![' '] + unit_of(a as int).1);
    }
    let ghost formatted = out@;
    if include_raw && a >= 0x400 {
        out.push(' ');
        out.push('(');
        push_signed(&mut out, count);
        out.push(' ');
        out.push('b');
        out.push('y');
        out.push('t');
        out.push('e');
        out.push('s');
        out.push(')');
        assert(out@ =~= formatted + seq![' ', '('] + signed_digits(count as int) + seq![' ', 'b', 'y', 't', 'e', 's', ')']);
    }
    chars_to_string(out)
}

/// The JSON escape of one character.
pub open spec fn escaped_char(c: char) -> Seq<char> {
    if c == '\\' {
        seq!['\\', '\\']
    } else if c == '"' {
        seq!['\\', '"']
    } else if c == '\n' {
        seq!['\\', 'n']
    } else if c == '\t' {
        seq!['\\', 't']
    } else if c == '\r' {
        seq!['\\', 'r']
    } else if c == '\x08' {
        seq!['\\', 'b']
    } else if c == '\x0c' {
        seq!['\\', 'f']
    } else {
        seq![c]
    }
}

/// The string escaped for a JSON string literal: backslash, double quote,
/// newline, tab, carriage return, backspace and form feed escaped.
pub open spec fn json_escaped(s: Seq<char>) -> Seq<char>
    decreases s.len(),
{
    if s.len() == 0 {
        Seq::empty()
    } else {
        json_escaped(s.drop_last()) + escaped_char(s.last())
    }
}

/// Escape a string for a JSON string literal.
pub fn json_escape(string: &str) -> (r: String)
    ensures
        r@ == json_escaped(string@),
{
    let n = string.unicode_len();
    let mut out: Vec<char> = Vec::new();
    let mut i: usize = 0;
    while i < n
        invariant
            n == string@.len(),
            i <= n,
            out@ == json_escaped(string@.take(i as int)),
        decreases n - i,
    {
        let c = string.get_char(i);
        if c == '\\' {
            out.push('\\');
            out.push('\\');
        } else if c == '"' {
            out.push('\\');
            out.push('"');
        } else if c == '\n' {
            out.push('\\');
            out.push('n');
        } else if c == '\t' {
            out.push('\\');
            out.push('t');
        } else if c == '\r' {
            out.push('\\');
            out.push('r');
        } else if c == '\x08' {
            out.push('\\');
            out.push('b');
        } else if c == '\x0c' {
            out.push('\\');
            out.push('f');
        } else {
            out.push(c);
        }
        let ghost prev = string@.take(i as int);
        i += 1;
        assert(string@.take(i as int).drop_last() =~= prev);
        assert(out@ =~= json_escaped(string@.take(i as int)));
    }
    assert(string@.take(n as int) =~= string@);
    chars_to_string(out)
}

/// Whether `c` is white space, as Unicode's `White_Space` property says.
pub open spec fn is_white_space(c: char) -> bool {
    let v = c as u32;
    (0x09 <= v <= 0x0d) || v == 0x20 || v == 0x85 || v == 0xa0 || v == 0x1680 || (0x2000 <= v <= 0x200a) || v == 0x2028
        || v == 0x2029 || v == 0x202f || v == 0x205f || v == 0x3000
}

/// The characters without their leading white space.
pub open spec fn trim_start_chars(s: Seq<char>) -> Seq<char>
    decreases s.len(),
{
    if s.len() > 0 && is_white_space(s[0]) {
        trim_start_chars(s.drop_first())
    } else {
        s
    }
}

/// The characters without their trailing white space.
pub open spec fn trim_end_chars(s: Seq<char>) -> Seq<char>
    decreases s.len(),
{
    if s.len() > 0 && is_white_space(s.last()) {
        trim_end_chars(s.drop_last())
    } else {
        s
    }
}

/// The characters without leading and trailing white space.
pub open spec fn trim_chars(s: Seq<char>) -> Seq<char> {
    trim_end_chars(trim_start_chars(s))
}

/// `str::trim`: std documents that it removes the leading and trailing white
/// space, as Unicode's `White_Space` property defines it.
#[verifier::external_body]
fn trimmed(s: &str) -> (r: &str)
    ensures
        r@ == trim_chars(s@),
{
    s.trim()
}

/// The message for a name that is not a chunk name.
fn invalid_chunk_name(name: &str) -> (s: String)
    ensures
        s@ == "Invalid chunk name "@ + name@,
{
    let mut s = String::from_str("Invalid chunk name ");
    s.append(name);
    s
}

/// Parse a chunk name: the four bytes of the name without surrounding white
/// space.
pub fn parse_chunk_name(name: &str) -> (r: Result<[u8; 4], String>)
    ensures
        match r {
            Ok(a) => vstd::utf8::encode_utf8(trim_chars(name@)) == a@,
            Err(msg) => vstd::utf8::encode_utf8(trim_chars(name@)).len() != 4 && msg@ == "Invalid chunk name "@
                + name@,
        },
{
    let t = trimmed(name);
    let bytes = t.as_bytes();
    if bytes.len() == 4 {
        let a = [bytes[0], bytes[1], bytes[2], bytes[3]];
        assert(a@ =~= bytes@);
        Ok(a)
    } else {
        Err(invalid_chunk_name(name))
    }
}

} // verus!
