//! Names of region files: `r.<x>.<z>.mca`, with the file-grid coordinates in
//! decimal.

use vstd::prelude::*;
use vstd::string::*;

verus! {

/// The character of one decimal digit.
pub open spec fn digit_char(d: int) -> char {
    if d == 0 {
        '0'
    } else if d == 1 {
        '1'
    } else if d == 2 {
        '2'
    } else if d == 3 {
        '3'
    } else if d == 4 {
        '4'
    } else if d == 5 {
        '5'
    } else if d == 6 {
        '6'
    } else if d == 7 {
        '7'
    } else if d == 8 {
        '8'
    } else {
        '9'
    }
}

/// The decimal digits of a number that is not negative, without leading
/// zeros.
pub open spec fn digits(n: int) -> Seq<char>
    decreases n,
{
    if n < 10 {
        seq![digit_char(n)]
    } else {
        digits(n / 10).push(digit_char(n % 10))
    }
}

/// A number in decimal, with a minus sign where it is negative.
pub open spec fn decimal(n: int) -> Seq<char> {
    if n < 0 {
        seq!['-'] + digits(-n)
    } else {
        digits(n)
    }
}

/// The name of the region file at file-grid position `(x, z)`.
pub open spec fn region_file_name(x: int, z: int) -> Seq<char> {
    seq!['r', '.'] + decimal(x) + seq!['.'] + decimal(z) + seq!['.', 'm', 'c', 'a']
}

/// `format!` with `{}` for two `isize`: each is written in decimal, with a
/// minus sign where it is negative, between the fixed parts of the name.
#[verifier::external_body]
pub(crate) fn format_region_file_name(x: isize, z: isize) -> (name: String)
    ensures
        name@ == region_file_name(x as int, z as int),
{
    format!("r.{}.{}.mca", x, z)
}

/// The character is a decimal digit.
pub open spec fn is_digit(c: char) -> bool {
    48 <= c as int <= 57
}

/// Every character is a decimal digit.
pub open spec fn all_digits(s: Seq<char>) -> bool {
    forall|i: int| 0 <= i < s.len() ==> is_digit(#[trigger] s[i])
}

/// The number that a sequence of decimal digits stands for.
pub open spec fn digits_value(s: Seq<char>) -> int
    decreases s.len(),
{
    if s.len() == 0 {
        0
    } else {
        digits_value(s.drop_last()) * 10 + (s.last() as int - 48)
    }
}

/// The number that a text stands for: decimal digits, at least one, behind
/// an optional `+` or `-`.
pub open spec fn parse_int(s: Seq<char>) -> Option<int> {
    if s.len() == 0 {
        None
    } else if s[0] == '-' || s[0] == '+' {
        let shown = s.subrange(1, s.len() as int);
        if shown.len() > 0 && all_digits(shown) {
            if s[0] == '-' {
                Some(-digits_value(shown))
            } else {
                Some(digits_value(shown))
            }
        } else {
            None
        }
    } else if all_digits(s) {
        Some(digits_value(s))
    } else {
        None
    }
}

/// The number that a text stands for, where it fits an `isize`.
pub open spec fn parse_isize(s: Seq<char>) -> Option<isize> {
    match parse_int(s) {
        Some(value) => if isize::MIN <= value <= isize::MAX {
            Some(value as isize)
        } else {
            None
        },
        None => None,
    }
}

/// The place of the first `.` of `s` from `from` up to `to`, or `to` where
/// there is none.
pub open spec fn first_dot(s: Seq<char>, from: int, to: int) -> int
    decreases to - from,
{
    if from >= to {
        to
    } else if s[from] == '.' {
        from
    } else {
        first_dot(s, from + 1, to)
    }
}

/// The name starts with `r.` and has a `.` before its last three
/// characters, the extension.
pub open spec fn has_region_form(name: Seq<char>) -> bool {
    &&& name.len() >= 6
    &&& name[0] == 'r'
    &&& name[1] == '.'
    &&& name[name.len() - 4] == '.'
}

/// The file-grid coordinates that a file name of the form
/// `r.<x>.<z>.<extension>` gives: what stands between `r.` and the `.` of
/// the extension is cut at each `.`, and the first two pieces are read as
/// numbers. Nothing where the name has not that form, has fewer than two
/// pieces, or a piece is no number that fits.
pub open spec fn parse_file_coordinates(name: Seq<char>) -> Option<(isize, isize)> {
    if !has_region_form(name) {
        None
    } else {
        let end = name.len() - 4;
        let dot = first_dot(name, 2, end);
        if dot >= end {
            None
        } else {
            let second = first_dot(name, dot + 1, end);
            match (
                parse_isize(name.subrange(2, dot)),
                parse_isize(name.subrange(dot + 1, second)),
            ) {
                (Some(x), Some(z)) => Some((x, z)),
                _ => None,
            }
        }
    }
}

/// The first digits of a number stand for no more than all of them.
proof fn lemma_digits_value_grows(s: Seq<char>, k: int)
    requires
        all_digits(s),
        0 <= k <= s.len(),
    ensures
        0 <= digits_value(s.take(k)) <= digits_value(s),
    decreases s.len() - k,
{
    if k == s.len() {
        assert(s.take(k) == s);
        lemma_digits_value_positive(s);
    } else {
        lemma_digits_value_grows(s, k + 1);
        assert(s.take(k + 1).drop_last() == s.take(k));
        assert(is_digit(s.take(k + 1).last()));
        lemma_digits_value_positive(s.take(k));
    }
}

/// Digits stand for a number that is not negative.
proof fn lemma_digits_value_positive(s: Seq<char>)
    requires
        all_digits(s),
    ensures
        0 <= digits_value(s),
    decreases s.len(),
{
    if s.len() > 0 {
        assert(is_digit(s.last()));
        lemma_digits_value_positive(s.drop_last());
    }
}

/// Finds the first `.` of the name from `from` up to `to`.
fn find_dot(name: &str, from: usize, to: usize) -> (dot: usize)
    requires
        from <= to <= name@.len(),
    ensures
        dot == first_dot(name@, from as int, to as int),
        from <= dot <= to,
{
    let mut i = from;
    while i < to
        invariant
            from <= i <= to <= name@.len(),
            first_dot(name@, i as int, to as int) == first_dot(name@, from as int, to as int),
        decreases to - i,
    {
        if name.get_char(i) == '.' {
            return i;
        }
        i += 1;
    }
    i
}

/// Reads the characters of the name from `from` up to `to` as a number.
fn parse_number(name: &str, from: usize, to: usize) -> (value: Option<isize>)
    requires
        from <= to <= name@.len(),
    ensures
        value == parse_isize(name@.subrange(from as int, to as int)),
{
    let ghost text = name@.subrange(from as int, to as int);
    if from == to {
        return None;
    }
    let first = name.get_char(from);
    assert(text[0] == first);
    let signed = first == '-' || first == '+';
    let start = if signed {
        from + 1
    } else {
        from
    };
    let ghost shown = name@.subrange(start as int, to as int);
    assert(signed ==> shown == text.subrange(1, text.len() as int));
    assert(!signed ==> shown == text);
    if start == to {
        return None;
    }
    let limit: i128 = isize::MAX as i128 + 1;
    let mut total: i128 = 0;
    let mut i = start;
    assert(shown.take(0).len() == 0);
    while i < to
        invariant
            from <= start <= i <= to <= name@.len(),
            start < to,
            text == name@.subrange(from as int, to as int),
            shown == name@.subrange(start as int, to as int),
            text[0] == first,
            signed == (first == '-' || first == '+'),
            signed ==> shown == text.subrange(1, text.len() as int),
            !signed ==> shown == text,
            limit == isize::MAX + 1,
            all_digits(shown.take(i - start)),
            total == digits_value(shown.take(i - start)),
            0 <= total <= limit,
        decreases to - i,
    {
        let c = name.get_char(i);
        assert(shown[i - start] == c);
        let code = c as u32;
        if code < 48 || code > 57 {
            assert(!is_digit(shown[i - start]));
            return None;
        }
        let digit = (code - 48) as i128;
        let ghost head = shown.take(i - start + 1);
        assert(head.drop_last() == shown.take(i - start));
        assert(head.last() == c);
        assert forall|j: int| 0 <= j < head.len() implies is_digit(#[trigger] head[j]) by {
            if j < head.len() - 1 {
                assert(head[j] == shown.take(i - start)[j]);
            }
        }
        if total * 10 + digit > limit {
            proof {
                if all_digits(shown) {
                    lemma_digits_value_grows(shown, i - start + 1);
                }
            }
            return None;
        }
        total = total * 10 + digit;
        i += 1;
    }
    assert(shown.take(to - start) == shown);
    let value = if first == '-' {
        -total
    } else {
        total
    };
    if value < isize::MIN as i128 || value > isize::MAX as i128 {
        None
    } else {
        Some(value as isize)
    }
}

/// Reads the file-grid coordinates out of the name of a region file.
pub fn get_file_coordinates(name: &str) -> (coordinates: Option<(isize, isize)>)
    ensures
        coordinates == parse_file_coordinates(name@),
{
    let len = name.unicode_len();
    if len < 6 {
        return None;
    }
    let end = len - 4;
    if name.get_char(0) != 'r' || name.get_char(1) != '.' || name.get_char(end) != '.' {
        return None;
    }
    let dot = find_dot(name, 2, end);
    if dot >= end {
        return None;
    }
    let second = find_dot(name, dot + 1, end);
    let x = parse_number(name, 2, dot);
    let z = parse_number(name, dot + 1, second);
    match (x, z) {
        (Some(x), Some(z)) => Some((x, z)),
        _ => None,
    }
}

/// The digits of a number are digits, and stand for that number.
proof fn lemma_digits(n: int)
    requires
        n >= 0,
    ensures
        digits(n).len() >= 1,
        all_digits(digits(n)),
        digits_value(digits(n)) == n,
    decreases n,
{
    if n < 10 {
        assert(digits(n).drop_last() == Seq::<char>::empty());
        assert(digits_value(digits(n).drop_last()) == 0);
    } else {
        lemma_digits(n / 10);
        let shown = digits(n);
        assert(shown.drop_last() == digits(n / 10));
        assert forall|i: int| 0 <= i < shown.len() implies is_digit(#[trigger] shown[i]) by {
            if i < shown.len() - 1 {
                assert(shown[i] == digits(n / 10)[i]);
            }
        }
    }
}

/// A number in decimal reads as that number and holds no `.`.
proof fn lemma_decimal(n: int)
    ensures
        decimal(n).len() >= 1,
        parse_int(decimal(n)) == Some(n),
        forall|i: int| 0 <= i < decimal(n).len() ==> decimal(n)[i] != '.',
{
    let shown = decimal(n);
    if n < 0 {
        lemma_digits(-n);
        assert(shown.subrange(1, shown.len() as int) == digits(-n));
        assert forall|i: int| 0 <= i < shown.len() implies shown[i] != '.' by {
            if i > 0 {
                assert(is_digit(digits(-n)[i - 1]));
            }
        }
    } else {
        lemma_digits(n);
        assert(is_digit(shown[0]));
        assert forall|i: int| 0 <= i < shown.len() implies shown[i] != '.' by {
            assert(is_digit(shown[i]));
        }
    }
}

/// The first `.` is where a `.` stands with none before it.
proof fn lemma_first_dot_is(s: Seq<char>, from: int, to: int, dot: int)
    requires
        0 <= from <= dot <= to <= s.len(),
        forall|i: int| from <= i < dot ==> s[i] != '.',
        dot < to ==> s[dot] == '.',
    ensures
        first_dot(s, from, to) == dot,
    decreases dot - from,
{
    if from < dot {
        lemma_first_dot_is(s, from + 1, to, dot);
    }
}

/// The coordinates read out of the name of a region file are those that the
/// name was made from.
pub proof fn file_names_give_their_coordinates(x: isize, z: isize)
    ensures
        parse_file_coordinates(region_file_name(x as int, z as int)) == Some((x, z)),
{
    let shown_x = decimal(x as int);
    let shown_z = decimal(z as int);
    let name = region_file_name(x as int, z as int);
    lemma_decimal(x as int);
    lemma_decimal(z as int);
    let dot: int = 2 + shown_x.len() as int;
    let end: int = dot + 1 + shown_z.len() as int;
    assert(name.len() == end + 4);
    assert forall|i: int| 2 <= i < dot implies name[i] != '.' by {
        assert(name[i] == shown_x[i - 2]);
    }
    assert(name[dot] == '.');
    assert forall|i: int| dot + 1 <= i < end implies name[i] != '.' by {
        assert(name[i] == shown_z[i - dot - 1]);
    }
    assert(name[0] == 'r' && name[1] == '.');
    assert(name[name.len() - 4] == '.');
    lemma_first_dot_is(name, 2, end, dot);
    lemma_first_dot_is(name, dot + 1, end, end);
    assert(name.subrange(2, dot) == shown_x);
    assert(name.subrange(dot + 1, end) == shown_z);
}

} // verus!
