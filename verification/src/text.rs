//! Character-level helpers on strings, each with a statement over sequences of characters.
use vstd::prelude::*;
use vstd::string::*;
use vstd::utf8::*;

verus! {

/// Whether two string slices hold the same characters.
pub fn same(a: &str, b: &str) -> (r: bool)
    ensures
        r == (a@ == b@),
{
    let x = a.as_bytes();
    let y = b.as_bytes();
    proof {
        encode_utf8_decode_utf8(a@);
        encode_utf8_decode_utf8(b@);
    }
    if x.len() != y.len() {
        return false;
    }
    let n: usize = x.len();
    let mut i: usize = 0;
    while i < n
        invariant
            i <= n,
            n == x@.len(),
            n == y@.len(),
            x@ == encode_utf8(a@),
            y@ == encode_utf8(b@),
            forall|k: int| 0 <= k < i ==> x@[k] == y@[k],
        decreases n - i,
    {
        if x[i] != y[i] {
            return false;
        }
        i += 1;
    }
    assert(x@ =~= y@);
    true
}

/// The characters of a string slice.
pub fn chars_of(s: &str) -> (r: Vec<char>)
    ensures
        r@ == s@,
{
    let mut out: Vec<char> = Vec::new();
    for c in it: s.chars()
        invariant
            out@ == it.seq().take(it.index() as int),
            it.seq() == s@,
    {
        out.push(c);
    }
    out
}

/// The character of a decimal digit.
pub open spec fn digit(d: nat) -> char {
    (48 + d) as char
}

/// The decimal digits of a natural number.
pub open spec fn digits(n: nat) -> Seq<char>
    decreases n,
{
    if n < 10 {
        seq![digit(n)]
    } else {
        digits(n / 10).push(digit(n % 10))
    }
}

/// The decimal writing of a number.
pub open spec fn decimal(n: int) -> Seq<char> {
    if n < 0 {
        seq!['-'] + digits((-n) as nat)
    } else {
        digits(n as nat)
    }
}

fn digit_text(d: u64) -> (r: &'static str)
    requires
        d < 10,
    ensures
        r@ == seq![digit(d as nat)],
{
    proof {
        reveal_strlit("0");
        reveal_strlit("1");
        reveal_strlit("2");
        reveal_strlit("3");
        reveal_strlit("4");
        reveal_strlit("5");
        reveal_strlit("6");
        reveal_strlit("7");
        reveal_strlit("8");
        reveal_strlit("9");
    }
    let r = match d {
        0 => "0",
        1 => "1",
        2 => "2",
        3 => "3",
        4 => "4",
        5 => "5",
        6 => "6",
        7 => "7",
        8 => "8",
        _ => "9",
    };
    assert(r@ =~= seq![digit(d as nat)]);
    r
}

/// Appends the decimal digits of a number.
pub fn push_decimal(out: &mut String, n: u64)
    ensures
        final(out)@ == old(out)@ + digits(n as nat),
    decreases n,
{
    if n >= 10 {
        push_decimal(out, n / 10);
    }
    out.append(digit_text(n % 10));
    assert(out@ =~= old(out)@ + digits(n as nat));
}

/// The decimal writing of an unsigned number.
pub fn decimal_u64(n: u64) -> (r: String)
    ensures
        r@ == decimal(n as int),
{
    let mut out = String::new();
    push_decimal(&mut out, n);
    assert(out@ =~= decimal(n as int));
    out
}

/// The decimal writing of a signed number.
pub fn decimal_i64(n: i64) -> (r: String)
    ensures
        r@ == decimal(n as int),
{
    if n >= 0 {
        return decimal_u64(n as u64);
    }
    let mut out = "-".to_string();
    proof {
        reveal_strlit("-");
    }
    push_decimal(&mut out, (-(n as i128)) as u64);
    assert(out@ =~= decimal(n as int));
    out
}

/// The place of the first `c` in `s`, or the length of `s` if there is none.
pub open spec fn first(s: Seq<char>, c: char) -> int
    decreases s.len(),
{
    if s.len() == 0 || s[0] == c {
        0
    } else {
        1 + first(s.drop_first(), c)
    }
}

/// The first `c` is a `c`, and none stands before it.
pub proof fn lemma_first(s: Seq<char>, c: char)
    ensures
        0 <= first(s, c) <= s.len(),
        first(s, c) < s.len() ==> s[first(s, c)] == c,
        forall|i: int| 0 <= i < first(s, c) ==> s[i] != c,
    decreases s.len(),
{
    if s.len() > 0 && s[0] != c {
        let t = s.drop_first();
        lemma_first(t, c);
        assert forall|i: int| 0 <= i < first(s, c) implies s[i] != c by {
            if i > 0 {
                assert(s[i] == t[i - 1]);
            }
        }
    }
}

/// A `c` behind characters that are none is the first one.
pub proof fn lemma_first_is(s: Seq<char>, c: char, i: int)
    requires
        0 <= i <= s.len(),
        i < s.len() ==> s[i] == c,
        forall|k: int| 0 <= k < i ==> s[k] != c,
    ensures
        first(s, c) == i,
{
    lemma_first(s, c);
    if i < first(s, c) {
        assert(s[i] != c);
    }
}

/// The place of the first `c` between `a` and `b`, or `b` if there is none.
pub fn find_from(cs: &[char], a: usize, b: usize, c: char) -> (r: usize)
    requires
        a <= b <= cs@.len(),
    ensures
        a <= r <= b,
        r - a == first(cs@.subrange(a as int, b as int), c),
        r < b ==> cs@[r as int] == c,
{
    let mut i: usize = a;
    while i < b
        invariant
            a <= i <= b <= cs@.len(),
            forall|k: int| a <= k < i ==> cs@[k] != c,
        decreases b - i,
    {
        if cs[i] == c {
            proof {
                lemma_first_is(cs@.subrange(a as int, b as int), c, i - a);
            }
            return i;
        }
        i += 1;
    }
    proof {
        lemma_first_is(cs@.subrange(a as int, b as int), c, b - a);
    }
    b
}

/// Whether a string holds a character.
pub fn contains_char(s: &str, c: char) -> (r: bool)
    ensures
        r == s@.contains(c),
{
    for x in it: s.chars()
        invariant
            it.seq() == s@,
            forall|k: int| 0 <= k < it.index() ==> s@[k] != c,
    {
        if x == c {
            assert(s@[it.index() as int] == c);
            return true;
        }
    }
    false
}

/// Whether a character is white space: the characters with the Unicode property White_Space.
pub open spec fn is_white(c: char) -> bool {
    ||| 0x09 <= c as u32 <= 0x0d
    ||| c as u32 == 0x20
    ||| c as u32 == 0x85
    ||| c as u32 == 0xa0
    ||| c as u32 == 0x1680
    ||| 0x2000 <= c as u32 <= 0x200a
    ||| c as u32 == 0x2028
    ||| c as u32 == 0x2029
    ||| c as u32 == 0x202f
    ||| c as u32 == 0x205f
    ||| c as u32 == 0x3000
}

/// Whether a character is white space.
pub fn is_white_space(c: char) -> (r: bool)
    ensures
        r == is_white(c),
{
    let u: u32 = c as u32;
    (0x09 <= u && u <= 0x0d) || u == 0x20 || u == 0x85 || u == 0xa0 || u == 0x1680 || (0x2000 <= u
        && u <= 0x200a) || u == 0x2028 || u == 0x2029 || u == 0x202f || u == 0x205f || u == 0x3000
}

/// The text without the white space in front.
pub open spec fn trim_start(s: Seq<char>) -> Seq<char>
    decreases s.len(),
{
    if s.len() > 0 && is_white(s[0]) {
        trim_start(s.drop_first())
    } else {
        s
    }
}

/// The text without the white space at the end.
pub open spec fn trim_end(s: Seq<char>) -> Seq<char>
    decreases s.len(),
{
    if s.len() > 0 && is_white(s.last()) {
        trim_end(s.drop_last())
    } else {
        s
    }
}

/// The text without the white space on either side.
pub open spec fn trim(s: Seq<char>) -> Seq<char> {
    trim_end(trim_start(s))
}

/// Where the text between `a` and `b` starts and ends once the white space on either side is
/// left out.
pub fn trim_range(cs: &[char], a: usize, b: usize) -> (r: (usize, usize))
    requires
        a <= b <= cs@.len(),
    ensures
        a <= r.0 <= r.1 <= b,
        cs@.subrange(r.0 as int, r.1 as int) == trim(cs@.subrange(a as int, b as int)),
{
    let mut i: usize = a;
    while i < b && is_white_space(cs[i])
        invariant
            a <= i <= b <= cs@.len(),
            trim_start(cs@.subrange(a as int, b as int)) == trim_start(
                cs@.subrange(i as int, b as int),
            ),
        decreases b - i,
    {
        assert(cs@.subrange(i as int, b as int).drop_first() =~= cs@.subrange(i + 1, b as int));
        i += 1;
    }
    let mut j: usize = b;
    while i < j && is_white_space(cs[j - 1])
        invariant
            i <= j <= b <= cs@.len(),
            trim_end(cs@.subrange(i as int, b as int)) == trim_end(
                cs@.subrange(i as int, j as int),
            ),
        decreases j - i,
    {
        assert(cs@.subrange(i as int, j as int).drop_last() =~= cs@.subrange(i as int, j - 1));
        j -= 1;
    }
    (i, j)
}

/// Whether the text ends with `tail`.
pub open spec fn ends_with(s: Seq<char>, tail: Seq<char>) -> bool {
    s.len() >= tail.len() && s.skip(s.len() - tail.len()) == tail
}

/// Whether the text starts with `head`.
pub open spec fn starts_with(s: Seq<char>, head: Seq<char>) -> bool {
    s.len() >= head.len() && s.take(head.len() as int) == head
}

/// The text without any number of `tail`s at its end.
pub open spec fn trim_all(s: Seq<char>, tail: Seq<char>) -> Seq<char>
    decreases s.len(),
{
    if tail.len() > 0 && ends_with(s, tail) {
        trim_all(s.take(s.len() - tail.len()), tail)
    } else {
        s
    }
}

/// Whether the first `n` characters end with `tail`.
fn prefix_ends_with(cs: &[char], n: usize, tail: &[char]) -> (r: bool)
    requires
        n <= cs@.len(),
    ensures
        r == ends_with(cs@.take(n as int), tail@),
{
    let t: usize = tail.len();
    if n < t {
        return false;
    }
    let mut i: usize = 0;
    while i < t
        invariant
            i <= t <= n <= cs@.len(),
            t == tail@.len(),
            forall|k: int| 0 <= k < i ==> cs@[n - t + k] == tail@[k],
        decreases t - i,
    {
        if cs[n - t + i] != tail[i] {
            assert(cs@.take(n as int).skip(n - t)[i as int] != tail@[i as int]);
            return false;
        }
        i += 1;
    }
    assert(cs@.take(n as int).skip(n - t) =~= tail@);
    true
}

/// Whether the text ends with `tail`.
pub fn has_suffix(s: &str, tail: &str) -> (r: bool)
    ensures
        r == ends_with(s@, tail@),
{
    let cs = chars_of(s);
    let t = chars_of(tail);
    assert(cs@.take(cs@.len() as int) =~= cs@);
    prefix_ends_with(cs.as_slice(), cs.len(), t.as_slice())
}

/// The text without any number of `tail`s at its end.
pub fn trim_suffixes(s: &str, tail: &str) -> (r: String)
    ensures
        r@ == trim_all(s@, tail@),
{
    let cs = chars_of(s);
    let t = chars_of(tail);
    let mut n: usize = cs.len();
    assert(cs@.take(n as int) =~= cs@);
    while t.len() > 0 && prefix_ends_with(cs.as_slice(), n, t.as_slice())
        invariant
            n <= cs@.len(),
            t@ == tail@,
            trim_all(s@, tail@) == trim_all(cs@.take(n as int), tail@),
        decreases n,
    {
        assert(cs@.take(n as int).take(n - t@.len()) =~= cs@.take(n - t@.len()));
        n = n - t.len();
    }
    assert(cs@.take(n as int) =~= s@.subrange(0, n as int));
    s.substring_char(0, n).to_owned()
}

/// The text without `head` in front, where it starts with it.
pub fn without_prefix<'a>(s: &'a str, head: &str) -> (r: &'a str)
    ensures
        r@ == (if starts_with(s@, head@) {
            s@.skip(head@.len() as int)
        } else {
            s@
        }),
{
    let n: usize = s.unicode_len();
    let h: usize = head.unicode_len();
    if n >= h && same(s.substring_char(0, h), head) {
        assert(s@.subrange(0, h as int) =~= s@.take(h as int));
        assert(s@.subrange(h as int, n as int) =~= s@.skip(h as int));
        s.substring_char(h, n)
    } else {
        if n >= h {
            assert(s@.subrange(0, h as int) =~= s@.take(h as int));
        }
        s
    }
}

/// The number that some decimal digits stand for, if they are all digits.
pub open spec fn digits_value(s: Seq<char>) -> Option<int>
    decreases s.len(),
{
    if s.len() == 0 {
        Some(0)
    } else {
        match digits_value(s.drop_last()) {
            Some(v) => if '0' <= s.last() <= '9' {
                Some(10 * v + (s.last() as int - '0' as int))
            } else {
                None
            },
            None => None,
        }
    }
}

/// The number that a text stands for: a sign, if there is one, and at least one digit.
pub open spec fn number_in(s: Seq<char>) -> Option<int> {
    let signed = s.len() > 0 && (s[0] == '-' || s[0] == '+');
    let body = if signed {
        s.skip(1)
    } else {
        s
    };
    if body.len() == 0 {
        None
    } else {
        match digits_value(body) {
            Some(v) => Some(
                if signed && s[0] == '-' {
                    -v
                } else {
                    v
                },
            ),
            None => None,
        }
    }
}

/// The number that a text stands for, if it fits thirty-two bits.
pub open spec fn i32_in(s: Seq<char>) -> Option<i32> {
    match number_in(s) {
        Some(v) => if i32::MIN <= v <= i32::MAX {
            Some(v as i32)
        } else {
            None
        },
        None => None,
    }
}

/// A longer run of digits stands for no smaller number, and is no better a number.
proof fn lemma_digits_grow(s: Seq<char>, i: int)
    requires
        0 <= i <= s.len(),
    ensures
        digits_value(s.take(i)) is None ==> digits_value(s) is None,
        digits_value(s) matches Some(v) ==> digits_value(s.take(i)) matches Some(u) && 0 <= u <= v,
    decreases s.len() - i,
{
    if i < s.len() {
        lemma_digits_grow(s, i + 1);
        assert(s.take(i + 1).drop_last() =~= s.take(i));
    } else {
        assert(s.take(i) =~= s);
        lemma_digits_positive(s);
    }
}

/// Digits stand for a number that is not negative.
proof fn lemma_digits_positive(s: Seq<char>)
    ensures
        digits_value(s) matches Some(v) ==> v >= 0,
    decreases s.len(),
{
    if s.len() > 0 {
        lemma_digits_positive(s.drop_last());
    }
}

/// The number that a text stands for, if it fits thirty-two bits.
pub fn parse_i32(s: &str) -> (r: Option<i32>)
    ensures
        r == i32_in(s@),
{
    let cs = chars_of(s);
    let n: usize = cs.len();
    let signed: bool = n > 0 && (cs[0] == '-' || cs[0] == '+');
    let start: usize = if signed {
        1
    } else {
        0
    };
    if start == n {
        return None;
    }
    let ghost body = s@.skip(start as int);
    assert(!signed ==> body =~= s@);
    let mut value: i64 = 0;
    let mut i: usize = start;
    assert(body.take(0) =~= Seq::empty());
    while i < n
        invariant
            start <= i <= n,
            n == cs@.len(),
            cs@ == s@,
            body == s@.skip(start as int),
            signed == (s@.len() > 0 && (s@[0] == '-' || s@[0] == '+')),
            start == (if signed { 1int } else { 0int }),
            !signed ==> body == s@,
            body.len() > 0,
            digits_value(body.take(i - start)) == Some(value as int),
            0 <= value <= 0x8000_0000,
        decreases n - i,
    {
        let c: char = cs[i];
        assert(body[i - start] == c);
        assert(body.take(i - start + 1).drop_last() =~= body.take(i - start));
        proof {
            lemma_digits_grow(body, i - start + 1);
        }
        if c < '0' || c > '9' {
            return None;
        }
        value = 10 * value + ((c as u32) - ('0' as u32)) as i64;
        if value > 0x8000_0000 {
            return None;
        }
        i += 1;
    }
    assert(body.take(n - start) =~= body);
    let v: i64 = if signed && cs[0] == '-' {
        -value
    } else {
        value
    };
    if v > 0x7fff_ffff {
        return None;
    }
    Some(v as i32)
}

} // verus!
