//! The names of segment files: `working_file_` and the segment's id in
//! decimal, without leading zeros.

use vstd::prelude::*;
use vstd::string::{StrSliceExecFns, StringExecFns};

verus! {

/// The decimal digit of a number below ten.
pub open spec fn digit(d: int) -> char {
    if d == 0 {
        '0'
    } else if d == 1 {
        '1'
    } else if d == 2 {
        '2'
    } else if d == 3 {
        '3'
    } else if d == 4 {
        '4'
    } else if d == 5 {
        '5'
    } else if d == 6 {
        '6'
    } else if d == 7 {
        '7'
    } else if d == 8 {
        '8'
    } else {
        '9'
    }
}

/// The number a decimal digit stands for.
pub open spec fn digit_value(c: char) -> Option<int> {
    if c == '0' {
        Some(0)
    } else if c == '1' {
        Some(1)
    } else if c == '2' {
        Some(2)
    } else if c == '3' {
        Some(3)
    } else if c == '4' {
        Some(4)
    } else if c == '5' {
        Some(5)
    } else if c == '6' {
        Some(6)
    } else if c == '7' {
        Some(7)
    } else if c == '8' {
        Some(8)
    } else if c == '9' {
        Some(9)
    } else {
        None
    }
}

/// A number in decimal, without leading zeros.
pub open spec fn decimal(n: nat) -> Seq<char>
    decreases n,
{
    if n < 10 {
        seq![digit(n as int)]
    } else {
        decimal(n / 10).push(digit((n % 10) as int))
    }
}

/// The number that a decimal numeral without leading zeros stands for.
pub open spec fn numeral_value(s: Seq<char>) -> Option<nat>
    decreases s.len(),
{
    if s.len() == 0 {
        None
    } else if s.len() == 1 {
        match digit_value(s[0]) {
            Some(d) => Some(d as nat),
            None => None,
        }
    } else {
        match (numeral_value(s.drop_last()), digit_value(s.last())) {
            (Some(v), Some(d)) => if v > 0 {
                Some((10 * v + d) as nat)
            } else {
                None
            },
            _ => None,
        }
    }
}

/// What every segment file name starts with.
pub open spec fn prefix() -> Seq<char> {
    "working_file_"@
}

/// The name of the file of segment `id`.
pub open spec fn segment_name(id: nat) -> Seq<char> {
    prefix() + decimal(id)
}

/// The id of the segment whose file has the given name, where the name is
/// that of a segment file.
pub open spec fn segment_id_of(name: Seq<char>) -> Option<nat> {
    if name.len() > 13 && name.take(13) == prefix() {
        numeral_value(name.skip(13))
    } else {
        None
    }
}

/// A number in decimal stands for that number.
pub proof fn lemma_decimal_value(n: nat)
    ensures
        decimal(n).len() >= 1,
        numeral_value(decimal(n)) == Some(n),
    decreases n,
{
    if n >= 10 {
        lemma_decimal_value(n / 10);
        assert(decimal(n).drop_last() =~= decimal(n / 10));
    }
}

/// A numeral is the decimal form of the number it stands for.
pub proof fn lemma_value_decimal(s: Seq<char>)
    requires
        numeral_value(s) is Some,
    ensures
        s == decimal(numeral_value(s)->0),
    decreases s.len(),
{
    if s.len() == 1 {
        assert(s =~= seq![s[0]]);
    } else {
        lemma_value_decimal(s.drop_last());
        assert(s =~= s.drop_last().push(s.last()));
    }
}

/// A segment's file name is read back as the segment's id.
pub proof fn lemma_name_round_trip(id: nat)
    ensures
        segment_id_of(segment_name(id)) == Some(id),
{
    reveal_strlit("working_file_");
    lemma_decimal_value(id);
    let name = segment_name(id);
    assert(name.take(13) =~= prefix());
    assert(name.skip(13) =~= decimal(id));
}

/// A name that is read as a segment id is that segment's file name.
pub proof fn lemma_name_sound(name: Seq<char>)
    requires
        segment_id_of(name) is Some,
    ensures
        name == segment_name(segment_id_of(name)->0),
{
    lemma_value_decimal(name.skip(13));
    assert(name =~= name.take(13) + name.skip(13));
}

/// Where the first `k` characters are no numeral, the whole is none.
pub proof fn lemma_numeral_none(s: Seq<char>, k: int)
    requires
        1 <= k <= s.len(),
        numeral_value(s.take(k)) is None,
    ensures
        numeral_value(s) is None,
    decreases s.len() - k,
{
    if k == s.len() {
        assert(s.take(k) =~= s);
    } else {
        assert(s.drop_last().take(k) =~= s.take(k));
        lemma_numeral_none(s.drop_last(), k);
    }
}

/// The digit of a number below ten, as text.
fn digit_text(d: usize) -> (text: &'static str)
    requires
        d < 10,
    ensures
        text@ == seq![digit(d as int)],
{
    proof {
        reveal_strlit("0");
        reveal_strlit("1");
        reveal_strlit("2");
        reveal_strlit("3");
        reveal_strlit("4");
        reveal_strlit("5");
        reveal_strlit("6");
        reveal_strlit("7");
        reveal_strlit("8");
        reveal_strlit("9");
    }
    let text = if d == 0 {
        "0"
    } else if d == 1 {
        "1"
    } else if d == 2 {
        "2"
    } else if d == 3 {
        "3"
    } else if d == 4 {
        "4"
    } else if d == 5 {
        "5"
    } else if d == 6 {
        "6"
    } else if d == 7 {
        "7"
    } else if d == 8 {
        "8"
    } else {
        "9"
    };
    assert(text@ =~= seq![digit(d as int)]);
    text
}

/// Appends `n` in decimal to `text`.
fn push_decimal(text: &mut String, n: usize)
    ensures
        final(text)@ == old(text)@ + decimal(n as nat),
    decreases n,
{
    if n >= 10 {
        push_decimal(text, n / 10);
    }
    text.append(digit_text(n % 10));
    assert(text@ =~= old(text)@ + decimal(n as nat));
}

/// The name of the file of segment `id`.
pub fn file_name(id: usize) -> (name: String)
    ensures
        name@ == segment_name(id as nat),
{
    let mut name = String::from_str("working_file_");
    push_decimal(&mut name, id);
    name
}

/// The number a character stands for, where it is a decimal digit.
fn digit_of(c: char) -> (d: Option<usize>)
    ensures
        match d {
            Some(d) => digit_value(c) == Some(d as int) && d < 10,
            None => digit_value(c) is None,
        },
{
    if c == '0' {
        Some(0)
    } else if c == '1' {
        Some(1)
    } else if c == '2' {
        Some(2)
    } else if c == '3' {
        Some(3)
    } else if c == '4' {
        Some(4)
    } else if c == '5' {
        Some(5)
    } else if c == '6' {
        Some(6)
    } else if c == '7' {
        Some(7)
    } else if c == '8' {
        Some(8)
    } else if c == '9' {
        Some(9)
    } else {
        None
    }
}

/// What `segment_id` gives for a name: the id that the name stands for,
/// where it is a segment file name and the id is a machine integer.
pub open spec fn segment_id_spec(name: Seq<char>) -> Option<usize> {
    match segment_id_of(name) {
        Some(id) => if id <= usize::MAX {
            Some(id as usize)
        } else {
            None
        },
        None => None,
    }
}

/// Ten times `v` plus `d`, where that is a machine integer.
fn times_ten_plus(v: Option<usize>, d: usize) -> (r: Option<usize>)
    requires
        d < 10,
    ensures
        r == match v {
            Some(v) => if 10 * v + d <= usize::MAX {
                Some((10 * v + d) as usize)
            } else {
                None
            },
            None => None,
        },
{
    match v {
        Some(v) => match v.checked_mul(10) {
            Some(tens) => tens.checked_add(d),
            None => None,
        },
        None => None,
    }
}

/// The id of the segment whose file has the given name. `None` where the
/// name is not that of a segment file, or the id is no machine integer.
pub fn segment_id(name: &str) -> (id: Option<usize>)
    ensures
        id == segment_id_spec(name@),
{
    let prefix = "working_file_";
    proof {
        reveal_strlit("working_file_");
    }
    let len = name.unicode_len();
    if len <= 13 {
        return None;
    }
    let mut i: usize = 0;
    while i < 13
        invariant
            i <= 13 < len == name@.len(),
            prefix@ == "working_file_"@,
            prefix@.len() == 13,
            forall|j: int| 0 <= j < i ==> name@[j] == prefix@[j],
        decreases 13 - i,
    {
        if name.get_char(i) != prefix.get_char(i) {
            assert(name@.take(13)[i as int] != prefix@[i as int]);
            return None;
        }
        i = i + 1;
    }
    assert(name@.take(13) =~= prefix@);
    let ghost digits = name@.skip(13);
    let first = match digit_of(name.get_char(13)) {
        Some(d) => d,
        None => {
            proof {
                assert(digits.take(1) =~= seq![name@[13]]);
                lemma_numeral_none(digits, 1);
            }
            return None;
        },
    };
    let mut value: Option<usize> = Some(first);
    let ghost mut exact: nat = first as nat;
    let mut at: usize = 14;
    assert(digits.take(1) =~= seq![name@[13]]);
    while at < len
        invariant
            14 <= at <= len == name@.len(),
            digits == name@.skip(13),
            numeral_value(digits.take(at - 13)) == Some(exact),
            value == if exact <= usize::MAX {
                Some(exact as usize)
            } else {
                None::<usize>
            },
        decreases len - at,
    {
        let ghost longer = digits.take(at - 13 + 1);
        assert(longer.drop_last() =~= digits.take(at - 13));
        assert(longer.last() == name@[at as int]);
        let d = match digit_of(name.get_char(at)) {
            Some(d) => d,
            None => {
                proof {
                    lemma_numeral_none(digits, at - 13 + 1);
                }
                return None;
            },
        };
        match value {
            Some(0) => {
                proof {
                    lemma_numeral_none(digits, at - 13 + 1);
                }
                return None;
            },
            _ => {},
        }
        value = times_ten_plus(value, d);
        proof {
            exact = (10 * exact + d) as nat;
        }
        at = at + 1;
    }
    assert(digits.take(len - 13) =~= digits);
    value
}

} // verus!
