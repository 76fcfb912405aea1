//! Text: decimal numbers, asset paths and suffixes.

use vstd::prelude::*;
use vstd::string::*;

verus! {

/// The decimal digit of `d`, for `d < 10`.
pub open spec fn digit(d: nat) -> char {
    (d + 48) as char
}

/// `n` in decimal, without leading zeros.
pub open spec fn decimal(n: nat) -> Seq<char>
    decreases n,
{
    if n < 10 {
        seq![digit(n)]
    } else {
        decimal(n / 10).push(digit(n % 10))
    }
}

/// Value of a decimal digit, `None` for any other character.
pub open spec fn digit_value(c: char) -> Option<nat> {
    if '0' <= c && c <= '9' {
        Some((c as int - 48) as nat)
    } else {
        None
    }
}

/// Value of a run of decimal digits, most significant first; the empty run has
/// value zero, and a run with another character in it has none.
pub open spec fn digits_value(s: Seq<char>) -> Option<nat>
    decreases s.len(),
{
    if s.len() == 0 {
        Some(0)
    } else {
        match (digits_value(s.drop_last()), digit_value(s.last())) {
            (Some(high), Some(low)) => Some(high * 10 + low),
            _ => None,
        }
    }
}

/// The number that a key writes: one or more decimal digits after an optional
/// plus sign. Nothing when the number exceeds `usize`.
pub open spec fn index_value(s: Seq<char>) -> Option<nat> {
    let body = if s.len() > 0 && s[0] == '+' {
        s.drop_first()
    } else {
        s
    };
    if body.len() == 0 {
        None
    } else {
        match digits_value(body) {
            Some(n) => if n <= usize::MAX {
                Some(n)
            } else {
                None
            },
            None => None,
        }
    }
}

/// What comes before the last slash, if there is one.
pub open spec fn before_last_slash(s: Seq<char>) -> Option<Seq<char>>
    decreases s.len(),
{
    if s.len() == 0 {
        None
    } else if s.last() == '/' {
        Some(s.drop_last())
    } else {
        before_last_slash(s.drop_last())
    }
}

/// `name` under `dir`.
pub open spec fn under(dir: Seq<char>, name: Seq<char>) -> Seq<char> {
    dir.push('/') + name
}

/// Whether `s` ends with `suffix`.
pub open spec fn ends_with(s: Seq<char>, suffix: Seq<char>) -> bool {
    suffix.len() <= s.len() && s.subrange(s.len() - suffix.len(), s.len() as int) == suffix
}

/// Whether `s` starts with `prefix`.
pub open spec fn starts_with(s: Seq<char>, prefix: Seq<char>) -> bool {
    prefix.len() <= s.len() && s.subrange(0, prefix.len() as int) == prefix
}

/// A decimal digit as text.
fn digit_text(d: u8) -> (r: &'static str)
    requires
        d < 10,
    ensures
        r@ == seq![digit(d as nat)],
{
    proof {
        reveal_strlit("0");
        reveal_strlit("1");
        reveal_strlit("2");
        reveal_strlit("3");
        reveal_strlit("4");
        reveal_strlit("5");
        reveal_strlit("6");
        reveal_strlit("7");
        reveal_strlit("8");
        reveal_strlit("9");
    }
    match d {
        0 => "0",
        1 => "1",
        2 => "2",
        3 => "3",
        4 => "4",
        5 => "5",
        6 => "6",
        7 => "7",
        8 => "8",
        _ => "9",
    }
}

/// Writes `n` in decimal at the end of `out`.
pub fn push_decimal(out: &mut String, n: u64)
    ensures
        final(out)@ == old(out)@ + decimal(n as nat),
    decreases n,
{
    if n >= 10 {
        push_decimal(out, n / 10);
    }
    out.append(digit_text((n % 10) as u8));
}

/// Writes `n` in decimal at the end of `out`.
pub fn push_index(out: &mut String, n: usize)
    ensures
        final(out)@ == old(out)@ + decimal(n as nat),
{
    push_decimal(out, n as u64);
}

/// The path of `name` under `dir`.
pub fn join_path(dir: &str, name: &str) -> (r: String)
    ensures
        r@ == under(dir@, name@),
{
    let mut path = dir.to_owned();
    proof {
        reveal_strlit("/");
    }
    path.append("/");
    path.append(name);
    path
}

/// A leading part that holds every slash but the last, up to the last slash.
proof fn lemma_before_last_slash(s: Seq<char>, k: int)
    requires
        0 <= k < s.len(),
        s[k] == '/',
        forall|j: int| k < j < s.len() ==> s[j] != '/',
    ensures
        before_last_slash(s) == Some(s.subrange(0, k)),
    decreases s.len(),
{
    if k == s.len() - 1 {
        assert(s.drop_last() =~= s.subrange(0, k));
    } else {
        lemma_before_last_slash(s.drop_last(), k);
        assert(s.drop_last().subrange(0, k) =~= s.subrange(0, k));
    }
}

/// Without a slash there is nothing before one.
proof fn lemma_no_slash(s: Seq<char>)
    requires
        forall|j: int| 0 <= j < s.len() ==> s[j] != '/',
    ensures
        before_last_slash(s) is None,
    decreases s.len(),
{
    if s.len() > 0 {
        lemma_no_slash(s.drop_last());
    }
}

/// The directory of a path: what comes before its last slash, or `None` for a
/// path without one.
pub fn parent_dir(path: &str) -> (r: Option<String>)
    ensures
        r is Some <==> before_last_slash(path@) is Some,
        r matches Some(dir) ==> before_last_slash(path@) == Some(dir@),
{
    let length = path.unicode_len();
    let mut position: usize = 0;
    let mut found: Option<usize> = None;
    for c in it: path.chars()
        invariant
            it.seq() == path@,
            position == it.index(),
            length == path@.len(),
            match found {
                Some(k) => k < position && path@[k as int] == '/' && forall|j: int|
                    k < j < position ==> path@[j] != '/',
                None => forall|j: int| 0 <= j < position ==> path@[j] != '/',
            },
    {
        if c == '/' {
            found = Some(position);
        }
        position = position + 1;
    }
    match found {
        Some(k) => {
            proof {
                lemma_before_last_slash(path@, k as int);
            }
            Some(path.substring_char(0, k).to_owned())
        },
        None => {
            proof {
                lemma_no_slash(path@);
            }
            None
        },
    }
}

/// Whether `s` ends with `suffix`.
pub fn has_suffix(s: &str, suffix: &str) -> (r: bool)
    ensures
        r == ends_with(s@, suffix@),
{
    let length = s.unicode_len();
    let tail = suffix.unicode_len();
    if tail > length {
        return false;
    }
    s.substring_char(length - tail, length).to_owned() == suffix.to_owned()
}

/// Whether `s` starts with `prefix`.
pub fn has_prefix(s: &str, prefix: &str) -> (r: bool)
    ensures
        r == starts_with(s@, prefix@),
{
    let length = s.unicode_len();
    let head = prefix.unicode_len();
    if head > length {
        return false;
    }
    s.substring_char(0, head).to_owned() == prefix.to_owned()
}

/// A run of digits is at least as large as any run that it starts with.
proof fn lemma_digits_grow(s: Seq<char>, k: int)
    requires
        0 <= k <= s.len(),
        digits_value(s) is Some,
    ensures
        digits_value(s.subrange(0, k)) is Some,
        digits_value(s.subrange(0, k))->0 <= digits_value(s)->0,
    decreases s.len(),
{
    if k == s.len() {
        assert(s.subrange(0, k) =~= s);
    } else {
        lemma_digits_grow(s.drop_last(), k);
        assert(s.drop_last().subrange(0, k) =~= s.subrange(0, k));
    }
}

/// Reads a level key: one or more decimal digits after an optional plus sign,
/// and nothing else; `None` also when the number does not fit.
pub fn parse_index(key: &str) -> (r: Option<usize>)
    ensures
        r is Some <==> index_value(key@) is Some,
        r matches Some(n) ==> index_value(key@) == Some(n as nat),
{
    let length = key.unicode_len();
    let start: usize = if length > 0 && key.get_char(0) == '+' {
        1
    } else {
        0
    };
    let ghost body = if key@.len() > 0 && key@[0] == '+' {
        key@.drop_first()
    } else {
        key@
    };
    assert(body =~= key@.subrange(start as int, length as int));
    if start == length {
        return None;
    }
    let mut value: usize = 0;
    let mut position: usize = start;
    while position < length
        invariant
            start <= position <= length,
            length == key@.len(),
            start < length,
            body == key@.subrange(start as int, length as int),
            body == (if key@.len() > 0 && key@[0] == '+' {
                key@.drop_first()
            } else {
                key@
            }),
            digits_value(body.subrange(0, position - start)) == Some(value as nat),
        decreases length - position,
    {
        let c = key.get_char(position);
        let ghost longer = body.subrange(0, position - start + 1);
        assert(longer.drop_last() =~= body.subrange(0, position - start));
        assert(longer.last() == c);
        if c < '0' || c > '9' {
            proof {
                if digits_value(body) is Some {
                    lemma_digits_grow(body, position - start + 1);
                }
            }
            return None;
        }
        let low: usize = (c as u32 - 48) as usize;
        assert(digits_value(longer) == Some((value * 10 + low) as nat));
        if value > usize::MAX / 10 || value * 10 > usize::MAX - low {
            proof {
                if digits_value(body) is Some {
                    lemma_digits_grow(body, position - start + 1);
                }
            }
            return None;
        }
        value = value * 10 + low;
        position = position + 1;
    }
    assert(body.subrange(0, length - start) =~= body);
    Some(value)
}

/// Writing one digit more: `10 * n + d` is `n` with `d` behind it, and the ten
/// digits are the characters from `0` to `9` in order.
pub proof fn one_more_digit_counts_tens(n: nat, d: nat)
    requires
        d < 10,
    ensures
        decimal(d) == seq![digit(d)],
        n > 0 ==> decimal(10 * n + d) == decimal(n).push(digit(d)),
        '0' <= digit(d) && digit(d) <= '9',
        digit(0) == '0',
        d > 0 ==> digit(d) as int == digit((d - 1) as nat) as int + 1,
{
    assert((10 * n + d) / 10 == n && (10 * n + d) % 10 == d);
}

/// A decimal number has a digit, and only digits.
proof fn lemma_decimal_digits(n: nat)
    ensures
        decimal(n).len() > 0,
        forall|k: int| 0 <= k < decimal(n).len() ==> '0' <= #[trigger] decimal(n)[k]
            && decimal(n)[k] <= '9',
    decreases n,
{
    if n >= 10 {
        lemma_decimal_digits(n / 10);
        one_more_digit_counts_tens(n / 10, n % 10);
        let before = decimal(n / 10);
        assert forall|k: int| 0 <= k < decimal(n).len() implies '0' <= #[trigger] decimal(n)[k]
            && decimal(n)[k] <= '9' by {
            if k < before.len() {
                assert(decimal(n)[k] == before[k]);
            }
        }
    } else {
        one_more_digit_counts_tens(0, n);
    }
}

/// Numbers come back: what is written in decimal reads as the number that was
/// written, in a key with or without a plus sign. Only digits are written, and
/// none of them needlessly.
pub proof fn decimals_come_back(n: nat)
    ensures
        digits_value(decimal(n)) == Some(n),
        n <= usize::MAX ==> index_value(decimal(n)) == Some(n),
        n <= usize::MAX ==> index_value(seq!['+'] + decimal(n)) == Some(n),
        n > usize::MAX ==> index_value(decimal(n)) is None,
        decimal(n).len() > 0,
        forall|k: int| 0 <= k < decimal(n).len() ==> '0' <= #[trigger] decimal(n)[k]
            && decimal(n)[k] <= '9',
        n > 0 ==> decimal(n)[0] != '0',
    decreases n,
{
    lemma_decimal_digits(n);
    if n >= 10 {
        decimals_come_back(n / 10);
        one_more_digit_counts_tens(n / 10, n % 10);
        assert(decimal(n).drop_last() =~= decimal(n / 10));
        assert(decimal(n)[0] == decimal(n / 10)[0]);
        assert(digit_value(decimal(n).last()) == Some(n % 10));
    } else {
        one_more_digit_counts_tens(0, n);
        assert(decimal(n).drop_last() =~= Seq::empty());
        assert(digits_value(Seq::<char>::empty()) == Some(0nat));
        assert(digit_value(decimal(n).last()) == Some(n));
    }
    assert(digits_value(decimal(n)) == Some(n));
    assert((seq!['+'] + decimal(n)).drop_first() =~= decimal(n));
    assert(decimal(n)[0] != '+');
}

/// Different numbers are written differently.
pub proof fn decimals_tell_numbers_apart(a: nat, b: nat)
    requires
        decimal(a) == decimal(b),
    ensures
        a == b,
{
    decimals_come_back(a);
    decimals_come_back(b);
}

/// A key that holds anything but digits, up to a plus sign in front, writes no
/// number, and neither does one without digits.
pub proof fn other_keys_write_no_number(key: Seq<char>, k: int)
    requires
        key.len() == 0 || key == seq!['+'] || (0 <= k < key.len() && !('0' <= key[k] && key[k]
            <= '9') && !(k == 0 && key[k] == '+')),
    ensures
        index_value(key) is None,
{
    if key == seq!['+'] {
        assert(key.drop_first() =~= Seq::empty());
    } else if key.len() > 0 {
        if key[0] == '+' {
            assert(key.drop_first()[k - 1] == key[k]);
            lemma_no_value(key.drop_first(), k - 1);
        } else {
            lemma_no_value(key, k);
        }
    }
}

/// A run with another character in it has no value.
proof fn lemma_no_value(s: Seq<char>, k: int)
    requires
        0 <= k < s.len(),
        !('0' <= s[k] && s[k] <= '9'),
    ensures
        digits_value(s) is None,
    decreases s.len(),
{
    if k < s.len() - 1 {
        assert(s.drop_last()[k] == s[k]);
        lemma_no_value(s.drop_last(), k);
    }
}

/// A path is taken apart at its last slash: `dir/name` has the directory `dir`,
/// whatever slashes are in it, and a name without a slash has none.
pub proof fn paths_come_apart_at_the_last_slash(dir: Seq<char>, name: Seq<char>)
    requires
        !name.contains('/'),
    ensures
        under(dir, name).len() == dir.len() + 1 + name.len(),
        under(dir, name).subrange(0, dir.len() as int) == dir,
        under(dir, name)[dir.len() as int] == '/',
        under(dir, name).skip(dir.len() as int + 1) == name,
        before_last_slash(under(dir, name)) == Some(dir),
        before_last_slash(name) is None,
{
    let path = under(dir, name);
    assert forall|j: int| 0 <= j < name.len() implies #[trigger] name[j] != '/' by {
        assert(!name.contains('/'));
    }
    assert forall|j: int| dir.len() < j < path.len() implies #[trigger] path[j] != '/' by {
        assert(path[j] == name[j - dir.len() - 1]);
    }
    lemma_before_last_slash(path, dir.len() as int);
    lemma_no_slash(name);
    assert(path.subrange(0, dir.len() as int) =~= dir);
    assert(path.skip(dir.len() as int + 1) =~= name);
}

/// A text ends with what was written last and starts with what was written
/// first; and whatever it ends or starts with can be taken off it.
pub proof fn ends_and_starts_are_parts(s: Seq<char>, part: Seq<char>)
    ensures
        ends_with(s, part) <==> exists|front: Seq<char>| s == #[trigger] (front + part),
        starts_with(s, part) <==> exists|rest: Seq<char>| s == #[trigger] (part + rest),
{
    if ends_with(s, part) {
        let front = s.subrange(0, s.len() - part.len());
        assert(s =~= front + part) by {
            assert forall|k: int| 0 <= k < s.len() implies s[k] == (front + part)[k] by {
                if k >= front.len() {
                    assert(s.subrange(s.len() - part.len(), s.len() as int)[k - front.len()]
                        == s[k]);
                }
            }
        }
    }
    if starts_with(s, part) {
        let rest = s.subrange(part.len() as int, s.len() as int);
        assert(s =~= part + rest) by {
            assert forall|k: int| 0 <= k < s.len() implies s[k] == (part + rest)[k] by {
                if k < part.len() {
                    assert(s.subrange(0, part.len() as int)[k] == s[k]);
                }
            }
        }
    }
    if exists|front: Seq<char>| s == #[trigger] (front + part) {
        let front = choose|front: Seq<char>| s == #[trigger] (front + part);
        assert(s.subrange(s.len() - part.len(), s.len() as int) =~= part);
    }
    if exists|rest: Seq<char>| s == #[trigger] (part + rest) {
        let rest = choose|rest: Seq<char>| s == #[trigger] (part + rest);
        assert(s.subrange(0, part.len() as int) =~= part);
    }
}

/// Reading goes digit by digit, zeros in front and all: with one digit more a number
/// is ten times as large, and the digit more.
pub proof fn digits_are_read_in_tens(s: Seq<char>, d: nat)
    requires
        d < 10,
        digits_value(s) is Some,
    ensures
        digits_value(s.push(digit(d))) == Some((10 * digits_value(s)->0 + d) as nat),
        digits_value(Seq::empty()) == Some(0nat),
{
    assert(s.push(digit(d)).drop_last() =~= s);
    one_more_digit_counts_tens(0, d);
    assert(digit_value(digit(d)) == Some(d));
}

} // verus!
