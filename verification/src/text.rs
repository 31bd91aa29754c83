//! Text as sequences of characters: matching, splitting, replacing, and decimal numbers.
use vstd::prelude::*;
use vstd::string::{StrSliceExecFns, StringExecFns};

verus! {

/// The text starts with the pattern.
pub open spec fn has_prefix(s: Seq<char>, p: Seq<char>) -> bool {
    p.len() <= s.len() && s.take(p.len() as int) == p
}

/// The text ends with the pattern.
pub open spec fn has_suffix(s: Seq<char>, p: Seq<char>) -> bool {
    p.len() <= s.len() && s.skip(s.len() - p.len()) == p
}

/// The pattern stands at position `i` of the text.
pub open spec fn stands_at(s: Seq<char>, p: Seq<char>, i: int) -> bool {
    0 <= i && i + p.len() <= s.len() && s.subrange(i, i + p.len()) == p
}

/// The pattern occurs in the text.
pub open spec fn occurs(s: Seq<char>, p: Seq<char>) -> bool {
    exists|i: int| #[trigger] stands_at(s, p, i)
}

/// What follows a prefix.
pub open spec fn without_prefix(s: Seq<char>, p: Seq<char>) -> Option<Seq<char>> {
    if has_prefix(s, p) {
        Some(s.skip(p.len() as int))
    } else {
        None
    }
}

/// What precedes a suffix.
pub open spec fn without_suffix(s: Seq<char>, p: Seq<char>) -> Option<Seq<char>> {
    if has_suffix(s, p) {
        Some(s.take(s.len() - p.len()))
    } else {
        None
    }
}

/// The parts before and after the first occurrence of a character.
pub open spec fn split_first(s: Seq<char>, c: char) -> Option<(Seq<char>, Seq<char>)>
    decreases s.len(),
{
    if s.len() == 0 {
        None
    } else if s[0] == c {
        Some((Seq::empty(), s.skip(1)))
    } else {
        match split_first(s.skip(1), c) {
            Some((a, b)) => Some((seq![s[0]] + a, b)),
            None => None,
        }
    }
}

/// The parts before and after the last occurrence of a character.
pub open spec fn split_last(s: Seq<char>, c: char) -> Option<(Seq<char>, Seq<char>)>
    decreases s.len(),
{
    if s.len() == 0 {
        None
    } else if s.last() == c {
        Some((s.drop_last(), Seq::empty()))
    } else {
        match split_last(s.drop_last(), c) {
            Some((a, b)) => Some((a, b.push(s.last()))),
            None => None,
        }
    }
}

/// What follows the last occurrence of a character, or the whole text.
pub open spec fn last_part(s: Seq<char>, c: char) -> Seq<char> {
    match split_last(s, c) {
        Some((_, b)) => b,
        None => s,
    }
}

/// The text with every occurrence of a pattern replaced, from the left and without overlap.
pub open spec fn replaced(s: Seq<char>, from: Seq<char>, to: Seq<char>) -> Seq<char>
    decreases s.len(),
{
    if s.len() == 0 || from.len() == 0 {
        s
    } else if has_prefix(s, from) {
        to + replaced(s.skip(from.len() as int), from, to)
    } else {
        seq![s[0]] + replaced(s.skip(1), from, to)
    }
}

/// The characters of a text.
pub fn chars_of(s: &str) -> (r: Vec<char>)
    ensures
        r@ == s@,
{
    let mut r: Vec<char> = Vec::new();
    for c in it: s.chars()
        invariant
            it.seq() == s@,
            r@ == s@.take(it.index()),
    {
        assert(s@.take(it.index() + 1) =~= s@.take(it.index()).push(s@[it.index()]));
        r.push(c);
    }
    assert(s@.take(s@.len() as int) =~= s@);
    r
}

/// Whether characters `p` stand at position `i` of `s`.
fn matches_at(s: &[char], p: &[char], i: usize) -> (r: bool)
    requires
        i <= s@.len(),
    ensures
        r == stands_at(s@, p@, i as int),
{
    let n: usize = s.len();
    if p.len() > n - i {
        return false;
    }
    let mut k: usize = 0;
    while k < p.len()
        invariant
            k <= p@.len(),
            i + p@.len() <= s@.len() == n,
            forall|j: int| 0 <= j < k ==> s@[i + j] == p@[j],
        decreases p@.len() - k,
    {
        if s[i + k] != p[k] {
            proof {
                let sub = s@.subrange(i as int, i + p@.len());
                assert(sub[k as int] != p@[k as int]);
            }
            return false;
        }
        k = k + 1;
    }
    assert(s@.subrange(i as int, i + p@.len()) =~= p@);
    true
}

/// Whether two texts are the same.
pub fn same_text(a: &str, b: &str) -> (r: bool)
    ensures
        r == (a@ == b@),
{
    let (x, y): (Vec<char>, Vec<char>) = (chars_of(a), chars_of(b));
    if x.len() != y.len() {
        return false;
    }
    let same = matches_at(&x, &y, 0);
    assert(x@.subrange(0, y@.len() as int) =~= x@);
    same
}

/// What follows a prefix.
pub fn strip_prefix<'a>(s: &'a str, p: &str) -> (r: Option<&'a str>)
    ensures
        match r {
            Some(t) => without_prefix(s@, p@) == Some(t@),
            None => without_prefix(s@, p@) is None,
        },
{
    let (x, y): (Vec<char>, Vec<char>) = (chars_of(s), chars_of(p));
    if y.len() <= x.len() {
        assert(x@.subrange(0, y@.len() as int) =~= x@.take(y@.len() as int));
        if matches_at(&x, &y, 0) {
            let t = s.substring_char(y.len(), x.len());
            assert(t@ =~= s@.skip(p@.len() as int));
            return Some(t);
        }
    }
    None
}

/// What precedes a suffix.
pub fn strip_suffix<'a>(s: &'a str, p: &str) -> (r: Option<&'a str>)
    ensures
        match r {
            Some(t) => without_suffix(s@, p@) == Some(t@),
            None => without_suffix(s@, p@) is None,
        },
{
    let (x, y): (Vec<char>, Vec<char>) = (chars_of(s), chars_of(p));
    if y.len() <= x.len() {
        let at: usize = x.len() - y.len();
        assert(x@.subrange(at as int, at + y@.len()) =~= x@.skip(at as int));
        if matches_at(&x, &y, at) {
            let t = s.substring_char(0, at);
            assert(t@ =~= s@.take(at as int));
            return Some(t);
        }
    }
    None
}

/// Whether a text ends with a pattern.
pub fn ends_with(s: &str, p: &str) -> (r: bool)
    ensures
        r == has_suffix(s@, p@),
{
    strip_suffix(s, p).is_some()
}

/// Whether a pattern occurs in a text.
pub fn contains(s: &str, p: &str) -> (r: bool)
    ensures
        r == occurs(s@, p@),
{
    let (x, y): (Vec<char>, Vec<char>) = (chars_of(s), chars_of(p));
    let mut i: usize = 0;
    while i < x.len()
        invariant
            i <= x@.len(),
            x@ == s@,
            y@ == p@,
            forall|j: int| 0 <= j < i ==> !#[trigger] stands_at(s@, p@, j),
        decreases x@.len() - i,
    {
        if matches_at(&x, &y, i) {
            return true;
        }
        i = i + 1;
    }
    let at_end = matches_at(&x, &y, x.len());
    proof {
        if occurs(s@, p@) {
            let j = choose|j: int| #[trigger] stands_at(s@, p@, j);
            assert(j == x@.len());
        }
    }
    at_end
}

/// The first split lies at the first occurrence.
pub proof fn split_first_at(s: Seq<char>, c: char, i: int)
    requires
        0 <= i < s.len(),
        s[i] == c,
        forall|j: int| 0 <= j < i ==> s[j] != c,
    ensures
        split_first(s, c) == Some((s.take(i), s.skip(i + 1))),
    decreases s.len(),
{
    if i == 0 {
        assert(s.take(0) =~= Seq::empty());
    } else {
        let t = s.skip(1);
        assert(forall|j: int| 0 <= j < i - 1 ==> t[j] == s[j + 1]);
        split_first_at(t, c, i - 1);
        assert(seq![s[0]] + t.take(i - 1) =~= s.take(i));
        assert(t.skip(i) =~= s.skip(i + 1));
    }
}

proof fn split_first_none(s: Seq<char>, c: char)
    requires
        forall|j: int| 0 <= j < s.len() ==> s[j] != c,
    ensures
        split_first(s, c) is None,
    decreases s.len(),
{
    if s.len() > 0 {
        let t = s.skip(1);
        assert(forall|j: int| 0 <= j < t.len() ==> t[j] == s[j + 1]);
        split_first_none(t, c);
    }
}

pub proof fn split_last_at(s: Seq<char>, c: char, i: int)
    requires
        0 <= i < s.len(),
        s[i] == c,
        forall|j: int| i < j < s.len() ==> s[j] != c,
    ensures
        split_last(s, c) == Some((s.take(i), s.skip(i + 1))),
    decreases s.len(),
{
    if i == s.len() - 1 {
        assert(s.drop_last() =~= s.take(i));
        assert(s.skip(i + 1) =~= Seq::empty());
    } else {
        let t = s.drop_last();
        split_last_at(t, c, i);
        assert(t.take(i) =~= s.take(i));
        assert(t.skip(i + 1).push(s.last()) =~= s.skip(i + 1));
    }
}

proof fn split_last_none(s: Seq<char>, c: char)
    requires
        forall|j: int| 0 <= j < s.len() ==> s[j] != c,
    ensures
        split_last(s, c) is None,
    decreases s.len(),
{
    if s.len() > 0 {
        split_last_none(s.drop_last(), c);
    }
}

/// Split a text at the first occurrence of a character.
pub fn split_once<'a>(s: &'a str, c: char) -> (r: Option<(&'a str, &'a str)>)
    ensures
        match r {
            Some((a, b)) => split_first(s@, c) == Some((a@, b@)),
            None => split_first(s@, c) is None,
        },
{
    let x: Vec<char> = chars_of(s);
    let mut i: usize = 0;
    while i < x.len()
        invariant
            i <= x@.len(),
            x@ == s@,
            forall|j: int| 0 <= j < i ==> s@[j] != c,
        decreases x@.len() - i,
    {
        if x[i] == c {
            let a = s.substring_char(0, i);
            let b = s.substring_char(i + 1, x.len());
            proof {
                split_first_at(s@, c, i as int);
                assert(a@ =~= s@.take(i as int));
                assert(b@ =~= s@.skip(i + 1));
            }
            return Some((a, b));
        }
        i = i + 1;
    }
    proof {
        split_first_none(s@, c);
    }
    None
}

/// Split a text at the last occurrence of a character.
pub fn rsplit_once<'a>(s: &'a str, c: char) -> (r: Option<(&'a str, &'a str)>)
    ensures
        match r {
            Some((a, b)) => split_last(s@, c) == Some((a@, b@)),
            None => split_last(s@, c) is None,
        },
{
    let x: Vec<char> = chars_of(s);
    let mut i: usize = x.len();
    while i > 0
        invariant
            i <= x@.len(),
            x@ == s@,
            forall|j: int| i <= j < x@.len() ==> s@[j] != c,
        decreases i,
    {
        i = i - 1;
        if x[i] == c {
            let a = s.substring_char(0, i);
            let b = s.substring_char(i + 1, x.len());
            proof {
                split_last_at(s@, c, i as int);
                assert(a@ =~= s@.take(i as int));
                assert(b@ =~= s@.skip(i + 1));
            }
            return Some((a, b));
        }
    }
    proof {
        split_last_none(s@, c);
    }
    None
}

/// What follows the last occurrence of a character, or the whole text.
pub fn last_segment<'a>(s: &'a str, c: char) -> (r: &'a str)
    ensures
        r@ == last_part(s@, c),
{
    match rsplit_once(s, c) {
        Some((_, b)) => b,
        None => s,
    }
}

/// Replace every occurrence of a pattern.
pub fn replace_all(s: &str, from: &str, to: &str) -> (r: String)
    ensures
        r@ == replaced(s@, from@, to@),
{
    let (x, y): (Vec<char>, Vec<char>) = (chars_of(s), chars_of(from));
    let n: usize = x.len();
    let m: usize = y.len();
    if m == 0 {
        return s.to_owned();
    }
    let mut r: String = String::new();
    let mut i: usize = 0;
    assert(s@.skip(0) =~= s@);
    assert(r@ =~= Seq::<char>::empty());
    assert(Seq::<char>::empty() + replaced(s@, from@, to@) =~= replaced(s@, from@, to@));
    while i < n
        invariant
            i <= n,
            n == x@.len(),
            m == y@.len(),
            0 < m,
            x@ == s@,
            y@ == from@,
            r@ + replaced(s@.skip(i as int), from@, to@) == replaced(s@, from@, to@),
        decreases n - i,
    {
        let ghost rest = s@.skip(i as int);
        let ghost before = r@;
        let here = matches_at(&x, &y, i);
        proof {
            if i + m <= n {
                assert(s@.subrange(i as int, i + m) =~= rest.take(m as int));
            }
            assert(here == has_prefix(rest, from@));
        }
        if here {
            r.append(to);
            proof {
                assert(rest.skip(m as int) =~= s@.skip(i + m));
                assert(before + to@ + replaced(s@.skip(i + m), from@, to@) =~= before + (to@
                    + replaced(s@.skip(i + m), from@, to@)));
            }
            i = i + m;
        } else {
            r.append(s.substring_char(i, i + 1));
            proof {
                assert(s@.subrange(i as int, i + 1) =~= seq![s@[i as int]]);
                assert(rest[0] == s@[i as int]);
                assert(rest.skip(1) =~= s@.skip(i + 1));
                assert(before + seq![s@[i as int]] + replaced(s@.skip(i + 1), from@, to@)
                    =~= before + (seq![s@[i as int]] + replaced(s@.skip(i + 1), from@, to@)));
            }
            i = i + 1;
        }
    }
    proof {
        assert(s@.skip(n as int).len() == 0);
        assert(r@ + Seq::<char>::empty() =~= r@);
        assert(s@.skip(n as int) =~= Seq::<char>::empty());
    }
    r
}

/// The character is white space.
pub open spec fn is_white(c: char) -> bool {
    let code = c as u32;
    ||| 0x9 <= code <= 0xd
    ||| code == 0x20
    ||| code == 0x85
    ||| code == 0xa0
    ||| code == 0x1680
    ||| 0x2000 <= code <= 0x200a
    ||| code == 0x2028
    ||| code == 0x2029
    ||| code == 0x202f
    ||| code == 0x205f
    ||| code == 0x3000
}

/// The text holds nothing but white space.
pub open spec fn blank(s: Seq<char>) -> bool {
    forall|i: int| 0 <= i < s.len() ==> is_white(#[trigger] s[i])
}

/// Whether a text holds nothing but white space.
pub fn is_blank(s: &str) -> (r: bool)
    ensures
        r == blank(s@),
{
    let x: Vec<char> = chars_of(s);
    let mut i: usize = 0;
    while i < x.len()
        invariant
            i <= x@.len(),
            x@ == s@,
            forall|j: int| 0 <= j < i ==> is_white(#[trigger] s@[j]),
        decreases x@.len() - i,
    {
        let code: u32 = x[i] as u32;
        let white: bool = (0x9 <= code && code <= 0xd) || code == 0x20 || code == 0x85 || code
            == 0xa0 || code == 0x1680 || (0x2000 <= code && code <= 0x200a) || code == 0x2028
            || code == 0x2029 || code == 0x202f || code == 0x205f || code == 0x3000;
        if !white {
            assert(!is_white(s@[i as int]));
            return false;
        }
        i = i + 1;
    }
    true
}

/// The decimal digit of a number below ten.
pub open spec fn digit(d: int) -> char {
    (48 + d) as u8 as char
}

/// The decimal digits of a number, the most significant first.
pub open spec fn digits(n: nat) -> Seq<char>
    decreases n,
{
    if n < 10 {
        seq![digit(n as int)]
    } else {
        digits(n / 10).push(digit((n % 10) as int))
    }
}

/// The character is a decimal digit.
pub open spec fn is_digit(c: char) -> bool {
    48 <= c as u32 <= 57
}

/// The number that a sequence of digits denotes.
pub open spec fn number(s: Seq<char>) -> nat
    decreases s.len(),
{
    if s.len() == 0 {
        0
    } else {
        number(s.drop_last()) * 10 + (s.last() as u32 - 48) as nat
    }
}

/// The unsigned number that a text denotes: digits after an optional plus sign, within the range
/// of the machine.
pub open spec fn parsed(s: Seq<char>) -> Option<usize> {
    let t = after_sign(s);
    if t.len() > 0 && all_digits(t) && number(t) <= usize::MAX {
        Some(number(t) as usize)
    } else {
        None
    }
}

/// The text after an optional plus sign.
pub open spec fn after_sign(s: Seq<char>) -> Seq<char> {
    if s.len() > 0 && s[0] == '+' {
        s.skip(1)
    } else {
        s
    }
}

/// Every character is a digit.
pub open spec fn all_digits(s: Seq<char>) -> bool {
    forall|i: int| 0 <= i < s.len() ==> is_digit(#[trigger] s[i])
}

fn digit_text(d: u64) -> (r: &'static str)
    requires
        d < 10,
    ensures
        r@ == seq![digit(d as int)],
{
    proof {
        reveal_strlit("0");
        reveal_strlit("1");
        reveal_strlit("2");
        reveal_strlit("3");
        reveal_strlit("4");
        reveal_strlit("5");
        reveal_strlit("6");
        reveal_strlit("7");
        reveal_strlit("8");
        reveal_strlit("9");
    }
    let r = if d == 0 {
        "0"
    } else if d == 1 {
        "1"
    } else if d == 2 {
        "2"
    } else if d == 3 {
        "3"
    } else if d == 4 {
        "4"
    } else if d == 5 {
        "5"
    } else if d == 6 {
        "6"
    } else if d == 7 {
        "7"
    } else if d == 8 {
        "8"
    } else {
        "9"
    };
    assert(r@ =~= seq![digit(d as int)]);
    r
}

/// A number in decimal.
pub fn decimal(n: u64) -> (r: String)
    ensures
        r@ == digits(n as nat),
    decreases n,
{
    if n < 10 {
        digit_text(n).to_owned()
    } else {
        let mut r: String = decimal(n / 10);
        let last = digit_text(n % 10);
        let ghost before = r@;
        r.append(last);
        assert(before + seq![digit((n % 10) as int)] =~= before.push(digit((n % 10) as int)));
        r
    }
}

/// A number in decimal, with its sign where it is negative.
pub open spec fn signed_digits(n: int) -> Seq<char> {
    if n < 0 {
        "-"@ + digits((-n) as nat)
    } else {
        digits(n as nat)
    }
}

/// A signed number in decimal.
pub fn signed_decimal(n: i32) -> (r: String)
    ensures
        r@ == signed_digits(n as int),
{
    if n < 0 {
        let mut r: String = "-".to_owned();
        r.append(decimal((-(n as i64)) as u64).as_str());
        r
    } else {
        decimal(n as u64)
    }
}

proof fn number_grows(s: Seq<char>, n: int)
    requires
        0 <= n <= s.len(),
    ensures
        number(s.take(n)) <= number(s),
    decreases s.len() - n,
{
    if n < s.len() {
        assert(s.take(n + 1).drop_last() =~= s.take(n));
        number_grows(s, n + 1);
    } else {
        assert(s.take(n) =~= s);
    }
}

/// Read an unsigned number.
pub fn parse_usize(s: &str) -> (r: Option<usize>)
    ensures
        r == parsed(s@),
{
    let x: Vec<char> = chars_of(s);
    let start: usize = if x.len() > 0 && x[0] == '+' {
        1
    } else {
        0
    };
    let ghost t = after_sign(s@);
    assert(t =~= s@.skip(start as int));
    if x.len() == start {
        return None;
    }
    let mut value: usize = 0;
    let mut i: usize = start;
    assert(t.take(0) =~= Seq::<char>::empty());
    while i < x.len()
        invariant
            start <= i <= x@.len(),
            x@ == s@,
            start < x@.len(),
            t == s@.skip(start as int),
            t == after_sign(s@),
            value == number(t.take(i - start)),
            forall|j: int| 0 <= j < i - start ==> is_digit(#[trigger] t[j]),
        decreases x@.len() - i,
    {
        let c: char = x[i];
        let code: u32 = c as u32;
        assert(t[i - start] == c);
        if code < 48 || code > 57 {
            assert(!is_digit(t[i - start]));
            return None;
        }
        let d: usize = (code - 48) as usize;
        proof {
            assert(t.take(i - start + 1).drop_last() =~= t.take(i - start));
            assert(t.take(i - start + 1).last() == c);
            number_grows(t, i - start + 1);
            assert(number(t.take(i - start + 1)) == value * 10 + d);
        }
        if value > usize::MAX / 10 || value * 10 > usize::MAX - d {
            return None;
        }
        value = value * 10 + d;
        i = i + 1;
    }
    assert(t.take(t.len() as int) =~= t);
    Some(value)
}

/// The decimal form of a number reads back as the number.
pub proof fn decimal_round_trip(n: nat)
    ensures
        digits(n).len() > 0,
        all_digits(digits(n)),
        number(digits(n)) == n,
        n <= usize::MAX ==> parsed(digits(n)) == Some(n as usize),
    decreases n,
{
    let s = digits(n);
    if n < 10 {
        assert(s.drop_last() =~= Seq::<char>::empty());
        assert(number(s.drop_last()) == 0);
    } else {
        decimal_round_trip(n / 10);
        assert(s.drop_last() =~= digits(n / 10));
        assert forall|i: int| 0 <= i < s.len() implies is_digit(#[trigger] s[i]) by {
            if i < s.len() - 1 {
                assert(s[i] == digits(n / 10)[i]);
            }
        }
    }
    assert(is_digit(s[0]));
}

/// Numbers are written in base ten: a digit that is added to a number is written behind it.
pub proof fn numbers_are_decimal(n: nat, d: nat)
    requires
        d < 10,
    ensures
        digits(d) == seq![(48 + d) as u8 as char],
        0 < n ==> digits(10 * n + d) == digits(n).push((48 + d) as u8 as char),
{
}

/// A text of digits is read in base ten: a digit that is added to it counts once, and what stood
/// there ten times as much.
pub proof fn numbers_are_read_in_base_ten(s: Seq<char>, c: char)
    requires
        48 <= c as u32 <= 57,
    ensures
        number(s.push(c)) == 10 * number(s) + (c as u32 - 48),
        number(Seq::empty()) == 0,
{
    assert(s.push(c).drop_last() =~= s);
}

/// Spaces, tabs and line ends are white, and printed characters of the basic alphabet are not.
pub proof fn printed_characters_are_not_white(c: char)
    ensures
        c as u32 == 0x20 || 0x9 <= c as u32 <= 0xd ==> is_white(c),
        0x21 <= c as u32 <= 0x7e ==> !is_white(c),
{
}

/// A text is split at the first of the characters: what is before holds none, and the two parts with
/// the character between them are the text. Without the character there is no split.
pub proof fn splitting_at_the_first(s: Seq<char>, c: char)
    ensures
        match split_first(s, c) {
            Some((a, b)) => !a.contains(c) && s == a.push(c) + b,
            None => !s.contains(c),
        },
    decreases s.len(),
{
    if s.len() > 0 {
        let t = s.skip(1);
        splitting_at_the_first(t, c);
        if s[0] == c {
            assert(s =~= Seq::<char>::empty().push(c) + t);
        } else {
            match split_first(t, c) {
                Some((a, b)) => {
                    let whole = seq![s[0]] + a;
                    assert(whole.push(c) + b =~= seq![s[0]] + (a.push(c) + b));
                    assert(seq![s[0]] + t =~= s);
                    if whole.contains(c) {
                        let k = whole.index_of(c);
                        assert(k > 0);
                        assert(a[k - 1] == c);
                    }
                },
                None => {
                    if s.contains(c) {
                        let k = s.index_of(c);
                        assert(t[k - 1] == c);
                    }
                },
            }
        }
    }
}

/// A text is split at the last of the characters: what is behind holds none, and the two parts with
/// the character between them are the text. Without the character there is no split.
pub proof fn splitting_at_the_last(s: Seq<char>, c: char)
    ensures
        match split_last(s, c) {
            Some((a, b)) => !b.contains(c) && s == a.push(c) + b,
            None => !s.contains(c),
        },
    decreases s.len(),
{
    if s.len() > 0 {
        let t = s.drop_last();
        splitting_at_the_last(t, c);
        if s.last() == c {
            assert(s =~= t.push(c) + Seq::<char>::empty());
        } else {
            match split_last(t, c) {
                Some((a, b)) => {
                    let rest = b.push(s.last());
                    assert(a.push(c) + rest =~= (a.push(c) + b).push(s.last()));
                    assert(t.push(s.last()) =~= s);
                    if rest.contains(c) {
                        let k = rest.index_of(c);
                        assert(k < b.len());
                        assert(b[k] == c);
                    }
                },
                None => {
                    if s.contains(c) {
                        let k = s.index_of(c);
                        assert(t[k] == c);
                    }
                },
            }
        }
    }
}

} // verus!
