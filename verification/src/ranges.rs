use indexmap::IndexSet;
use vstd::prelude::*;
use vstd::string::StringExecFns;

verus! {

/// The items of a set of bytes, in insertion order.
pub uninterp spec fn byte_set_items(set: IndexSet<u8>) -> Seq<u8>;

/// `IndexSet::new`: a new set holds no item.
#[verifier::external_body]
fn new_byte_set() -> (set: IndexSet<u8>)
    ensures
        byte_set_items(set) == Seq::<u8>::empty(),
{
    IndexSet::new()
}

/// `IndexSet::insert`: as its documentation says, a value not yet in the set
/// is appended last and `true` returned; a value already there leaves the set
/// unchanged and gives `false`.
#[verifier::external_body]
fn byte_set_insert(set: &mut IndexSet<u8>, value: u8) -> (r: bool)
    ensures
        r == !byte_set_items(*old(set)).contains(value),
        byte_set_items(*final(set)) == if r {
            byte_set_items(*old(set)).push(value)
        } else {
            byte_set_items(*old(set))
        },
{
    set.insert(value)
}

/// `IndexSet::contains`: whether the value is in the set.
#[verifier::external_body]
fn byte_set_contains(set: &IndexSet<u8>, value: u8) -> (r: bool)
    ensures
        r == byte_set_items(*set).contains(value),
{
    set.contains(&value)
}

/// Whether `c` is an ASCII decimal digit.
pub open spec fn is_digit(c: char) -> bool {
    '0' <= c <= '9'
}

/// The value of a string of decimal digits.
pub open spec fn decimal_value(s: Seq<char>) -> int
    decreases s.len(),
{
    if s.len() == 0 {
        0
    } else {
        10 * decimal_value(s.drop_last()) + (s.last() as int - '0' as int)
    }
}

/// A byte written in decimal, as `str::parse::<u8>` reads it: an optional
/// `+` sign and one or more digits, with a value that fits in a byte.
pub open spec fn parse_byte(s: Seq<char>) -> Option<u8> {
    let d = unsigned_part(s);
    if d.len() > 0 && all_digits(d) && decimal_value(d) <= 255 {
        Some(decimal_value(d) as u8)
    } else {
        None
    }
}

/// The characters after an optional `+` sign.
pub open spec fn unsigned_part(s: Seq<char>) -> Seq<char> {
    if s.len() > 0 && s[0] == '+' {
        s.drop_first()
    } else {
        s
    }
}

/// Whether every character is a decimal digit.
pub open spec fn all_digits(d: Seq<char>) -> bool {
    forall|i: int| 0 <= i < d.len() ==> #[trigger] is_digit(d[i])
}

/// The pieces of `s` between the separators `sep`.
pub open spec fn split_on(s: Seq<char>, sep: char) -> Seq<Seq<char>>
    decreases s.len(),
{
    if s.len() == 0 {
        seq![Seq::empty()]
    } else {
        let rest = split_on(s.drop_last(), sep);
        if s.last() == sep {
            rest.push(Seq::empty())
        } else {
            rest.update(rest.len() - 1, rest.last().push(s.last()))
        }
    }
}

/// The values `first..=last`.
pub open spec fn byte_range(first: u8, last: u8) -> Seq<u8> {
    Seq::new((last - first + 1) as nat, |i: int| (first + i) as u8)
}

/// The values of a list, each in the range `min..=max` and given once.
pub open spec fn list_values(pieces: Seq<Seq<char>>, min: u8, max: u8) -> Option<Seq<u8>>
    decreases pieces.len(),
{
    if pieces.len() == 0 {
        Some(Seq::empty())
    } else {
        match list_values(pieces.drop_last(), min, max) {
            None => None,
            Some(items) => match parse_byte(pieces.last()) {
                Some(v) => if min <= v <= max && !items.contains(v) {
                    Some(items.push(v))
                } else {
                    None
                },
                None => None,
            },
        }
    }
}

/// The values that a numeric option names: one value (`A`), a range
/// (`A-B`, with `A < B`) or a list (`A,B,...`), all in `min..=max`; `None`
/// when the input is none of these.
pub open spec fn range_values(input: Seq<char>, min: u8, max: u8) -> Option<Seq<u8>> {
    let dash = split_on(input, '-');
    let comma = split_on(input, ',');
    let one = parse_byte(input);
    if one is Some && min <= one->0 <= max {
        Some(seq![one->0])
    } else if dash.len() == 2 {
        match (parse_byte(dash[0]), parse_byte(dash[1])) {
            (Some(first), Some(second)) => if min <= first && first < second && second <= max {
                Some(byte_range(first, second))
            } else {
                None
            },
            _ => None,
        }
    } else if comma.len() > 1 {
        list_values(comma, min, max)
    } else {
        None
    }
}

proof fn lemma_split_nonempty(s: Seq<char>, sep: char)
    ensures
        split_on(s, sep).len() >= 1,
    decreases s.len(),
{
    if s.len() > 0 {
        lemma_split_nonempty(s.drop_last(), sep);
    }
}

/// The characters of the string.
pub(crate) fn chars_of(s: &str) -> (r: Vec<char>)
    ensures
        r@ == s@,
{
    let n = s.unicode_len();
    let mut r: Vec<char> = Vec::new();
    let mut i: usize = 0;
    while i < n
        invariant
            n == s@.len(),
            i <= n,
            r@ == s@.take(i as int),
        decreases n - i,
    {
        r.push(s.get_char(i));
        i += 1;
        assert(r@ =~= s@.take(i as int));
    }
    assert(s@.take(n as int) =~= s@);
    r
}

/// Split the characters at each separator.
pub(crate) fn split_chars(s: &Vec<char>, sep: char) -> (r: Vec<Vec<char>>)
    ensures
        r@.len() == split_on(s@, sep).len(),
        forall|i: int| 0 <= i < r@.len() ==> (#[trigger] r@[i])@ == split_on(s@, sep)[i],
{
    let mut pieces: Vec<Vec<char>> = Vec::new();
    let mut current: Vec<char> = Vec::new();
    let mut i: usize = 0;
    while i < s.len()
        invariant
            i <= s@.len(),
            split_on(s@.take(i as int), sep).len() == pieces@.len() + 1,
            forall|k: int| 0 <= k < pieces@.len() ==> (#[trigger] pieces@[k])@ == split_on(s@.take(i as int), sep)[k],
            current@ == split_on(s@.take(i as int), sep).last(),
        decreases s@.len() - i,
    {
        let ghost before = s@.take(i as int);
        proof {
            lemma_split_nonempty(before, sep);
        }
        let c = s[i];
        i += 1;
        assert(s@.take(i as int).drop_last() =~= before);
        if c == sep {
            pieces.push(current);
            current = Vec::new();
        } else {
            current.push(c);
        }
    }
    assert(s@.take(s@.len() as int) =~= s@);
    pieces.push(current);
    pieces
}

/// Read a byte written in decimal.
fn parse_u8(s: &Vec<char>) -> (r: Option<u8>)
    ensures
        r == parse_byte(s@),
{
    let start: usize = if s.len() > 0 && s[0] == '+' {
        1
    } else {
        0
    };
    let ghost d = unsigned_part(s@);
    assert(d =~= s@.skip(start as int));
    if start >= s.len() {
        return None;
    }
    let mut value: u32 = 0;
    let mut i = start;
    while i < s.len()
        invariant
            start <= i <= s@.len(),
            d == s@.skip(start as int),
            d == unsigned_part(s@),
            forall|k: int| 0 <= k < i - start ==> #[trigger] is_digit(d[k]),
            value == decimal_value(d.take(i - start)),
            value <= 255,
        decreases s@.len() - i,
    {
        let c = s[i];
        assert(d[i - start] == c);
        if !('0' <= c && c <= '9') {
            assert(!is_digit(d[i - start]));
            assert(!all_digits(d));
            assert(parse_byte(s@) is None);
            return None;
        }
        let digit = (c as u32) - ('0' as u32);
        let next = value * 10 + digit;
        assert(d.take(i + 1 - start).drop_last() =~= d.take(i - start));
        assert(d.take(i + 1 - start).last() == c);
        assert(next == decimal_value(d.take(i + 1 - start)));
        if next > 255 {
            proof {
                assert forall|k: int| 0 <= k < i + 1 - start implies #[trigger] is_digit(d[k]) by {
                    if k == i - start {
                        assert(is_digit(c));
                    }
                }
                lemma_value_grows(d, (i + 1 - start) as int);
                if exists|k: int| i + 1 - start <= k < d.len() && !is_digit(d[k]) {
                    let k = choose|k: int| i + 1 - start <= k < d.len() && !is_digit(d[k]);
                    assert(!is_digit(d[k]));
                    assert(!all_digits(d));
                }
            }
            assert(parse_byte(s@) is None);
            return None;
        }
        value = next;
        i += 1;
    }
    assert(d.take(d.len() as int) =~= d);
    Some(value as u8)
}

/// A longer string of digits has at least the value of its prefix.
proof fn lemma_value_grows(d: Seq<char>, k: int)
    requires
        0 <= k <= d.len(),
        forall|i: int| 0 <= i < k ==> #[trigger] is_digit(d[i]),
    ensures
        decimal_value(d.take(k)) <= decimal_value(d) || exists|i: int| k <= i < d.len() && !is_digit(d[i]),
    decreases d.len() - k,
{
    if k < d.len() {
        if is_digit(d[k]) {
            lemma_value_grows(d, k + 1);
            assert(d.take(k + 1).drop_last() =~= d.take(k));
            assert(d.take(k + 1).last() == d[k]);
            assert forall|i: int| 0 <= i < d.take(k).len() implies #[trigger] is_digit(d.take(k)[i]) by {
                assert(d.take(k)[i] == d[i]);
            }
            lemma_value_nonneg(d.take(k));
            if exists|i: int| k + 1 <= i < d.len() && !is_digit(d[i]) {
                let i = choose|i: int| k + 1 <= i < d.len() && !is_digit(d[i]);
                assert(k <= i < d.len() && !is_digit(d[i]));
            }
        } else {
            assert(k <= k < d.len() && !is_digit(d[k]));
        }
    } else {
        assert(d.take(k) =~= d);
    }
}

proof fn lemma_value_nonneg(d: Seq<char>)
    requires
        forall|i: int| 0 <= i < d.len() ==> #[trigger] is_digit(d[i]),
    ensures
        decimal_value(d) >= 0,
    decreases d.len(),
{
    if d.len() > 0 {
        assert forall|i: int| 0 <= i < d.drop_last().len() implies #[trigger] is_digit(d.drop_last()[i]) by {
            assert(d.drop_last()[i] == d[i]);
        }
        lemma_value_nonneg(d.drop_last());
        assert(is_digit(d[d.len() - 1]));
    }
}

/// The message for an input that names no values.
fn invalid_input() -> (s: String)
    ensures
        s@ == "Not a valid input"@,
{
    String::from_str("Not a valid input")
}

/// Parse a numeric option: one value (`A`), a range (`A-B`) or a list
/// (`A,B,...`) of values in `min_value..=max_value`.
pub fn parse_numeric_range_opts(input: &str, min_value: u8, max_value: u8) -> (r: Result<IndexSet<u8>, String>)
    ensures
        match range_values(input@, min_value, max_value) {
            Some(items) => r matches Ok(set) && byte_set_items(set) == items,
            None => r matches Err(msg) && msg@ == "Not a valid input"@,
        },
{
    let chars = chars_of(input);
    let mut items = new_byte_set();
    // one value
    if let Some(one_value) = parse_u8(&chars) {
        if min_value <= one_value && one_value <= max_value {
            byte_set_insert(&mut items, one_value);
            assert(byte_set_items(items) =~= seq![one_value]);
            return Ok(items);
        }
    }
    // a range ("A-B")
    let range_pieces = split_chars(&chars, '-');
    if range_pieces.len() == 2 {
        let first_opt = parse_u8(&range_pieces[0]);
        let second_opt = parse_u8(&range_pieces[1]);
        if let (Some(first), Some(second)) = (first_opt, second_opt) {
            if min_value <= first && first < second && second <= max_value {
                let mut i: u16 = first as u16;
                while i <= second as u16
                    invariant
                        first <= i <= second + 1,
                        first < second,
                        byte_set_items(items) == byte_range(first, second).take(i - first),
                    decreases second + 1 - i,
                {
                    let ghost before = byte_set_items(items);
                    proof {
                        assert(!before.contains(i as u8)) by {
                            if before.contains(i as u8) {
                                let k = choose|k: int| 0 <= k < before.len() && before[k] == i as u8;
                                assert(before[k] == (first + k) as u8);
                            }
                        }
                    }
                    byte_set_insert(&mut items, i as u8);
                    i += 1;
                    assert(byte_set_items(items) =~= byte_range(first, second).take(i - first));
                }
                assert(byte_range(first, second).take(second + 1 - first) =~= byte_range(first, second));
                return Ok(items);
            }
        }
        return Err(invalid_input());
    }
    // a list ("A,B[,...]")
    let list_pieces = split_chars(&chars, ',');
    if list_pieces.len() > 1 {
        let ghost pieces = split_on(input@, ',');
        assert(range_values(input@, min_value, max_value) == list_values(pieces, min_value, max_value));
        assert(pieces.take(0) =~= Seq::<Seq<char>>::empty());
        let mut k: usize = 0;
        while k < list_pieces.len()
            invariant
                range_values(input@, min_value, max_value) == list_values(pieces, min_value, max_value),
                list_pieces@.len() == pieces.len(),
                forall|i: int| 0 <= i < list_pieces@.len() ==> (#[trigger] list_pieces@[i])@ == pieces[i],
                k <= pieces.len(),
                list_values(pieces.take(k as int), min_value, max_value) == Some(byte_set_items(items)),
            decreases pieces.len() - k,
        {
            let ghost prev = pieces.take(k as int);
            assert(pieces.take(k + 1).drop_last() =~= prev);
            if let Some(value_int) = parse_u8(&list_pieces[k]) {
                if min_value <= value_int && value_int <= max_value && !byte_set_contains(&items, value_int) {
                    byte_set_insert(&mut items, value_int);
                    k += 1;
                    continue;
                }
            }
            proof {
                assert(pieces.take(k + 1).last() == pieces[k as int]);
                assert(list_values(pieces.take(k + 1), min_value, max_value) is None);
                lemma_list_values_fail(pieces, (k + 1) as int, min_value, max_value);
            }
            assert(pieces.take(pieces.len() as int) =~= pieces);
            return Err(invalid_input());
        }
        assert(pieces.take(pieces.len() as int) =~= pieces);
        return Ok(items);
    }
    Err(invalid_input())
}

/// Once a prefix of the list fails, the whole list fails.
proof fn lemma_list_values_fail(pieces: Seq<Seq<char>>, k: int, min: u8, max: u8)
    requires
        0 <= k <= pieces.len(),
        list_values(pieces.take(k), min, max) is None,
    ensures
        list_values(pieces, min, max) is None,
    decreases pieces.len() - k,
{
    if k < pieces.len() {
        assert(pieces.take(k + 1).drop_last() =~= pieces.take(k));
        lemma_list_values_fail(pieces, k + 1, min, max);
    } else {
        assert(pieces.take(k) =~= pieces);
    }
}

} // verus!
