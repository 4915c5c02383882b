//! Text built and read character by character.

use vstd::prelude::*;
use vstd::string::{StrSliceExecFns, StringExecFns};

verus! {

/// `String::push` appends one character.
pub assume_specification[ String::push ](s: &mut String, ch: char)
    ensures
        final(s)@ == old(s)@.push(ch),
;

/// The characters of a digit.
pub open spec fn digit_char(d: nat) -> char {
    (48 + d) as char
}

/// A number in decimal.
pub open spec fn decimal(n: nat) -> Seq<char>
    decreases n,
{
    if n < 10 {
        seq![digit_char(n)]
    } else {
        decimal(n / 10).push(digit_char(n % 10))
    }
}

/// A signed number in decimal.
pub open spec fn signed_decimal(n: int) -> Seq<char> {
    if n < 0 {
        seq!['-'] + decimal((-n) as nat)
    } else {
        decimal(n as nat)
    }
}

/// The characters of a text.
pub fn chars_of(s: &str) -> (r: Vec<char>)
    ensures
        r@ == s@,
{
    let n: usize = s.unicode_len();
    let mut r: Vec<char> = Vec::new();
    let mut i: usize = 0;
    while i < n
        invariant
            i <= n == s@.len(),
            r@ =~= s@.take(i as int),
        decreases n - i,
    {
        r.push(s.get_char(i));
        i = i + 1;
    }
    assert(r@ =~= s@);
    r
}

/// The text of some characters.
pub fn text_of(chars: &[char]) -> (s: String)
    ensures
        s@ == chars@,
{
    let mut s = String::new();
    let mut i: usize = 0;
    assert(s@ =~= chars@.take(0));
    while i < chars.len()
        invariant
            i <= chars@.len(),
            s@ =~= chars@.take(i as int),
        decreases chars@.len() - i,
    {
        s.push(chars[i]);
        i = i + 1;
    }
    assert(s@ =~= chars@);
    s
}

/// Appends a number in decimal.
pub fn push_decimal(s: &mut String, n: u64)
    ensures
        final(s)@ == old(s)@ + decimal(n as nat),
    decreases n,
{
    if n >= 10 {
        push_decimal(s, n / 10);
    }
    s.push((48u8 + (n % 10) as u8) as char);
    assert(s@ =~= old(s)@ + decimal(n as nat));
}

/// Appends a signed number in decimal.
pub fn push_signed(s: &mut String, n: i64)
    requires
        n > i64::MIN,
    ensures
        final(s)@ == old(s)@ + signed_decimal(n as int),
{
    if n < 0 {
        s.push('-');
        push_decimal(s, (-n) as u64);
        assert(s@ =~= old(s)@ + signed_decimal(n as int));
    } else {
        push_decimal(s, n as u64);
    }
}

/// Appends a text.
pub fn push_text(s: &mut String, t: &str)
    ensures
        final(s)@ == old(s)@ + t@,
{
    s.append(t);
}

/// A text after a fixed beginning.
pub fn prefixed(prefix: &str, t: &str) -> (s: String)
    ensures
        s@ == prefix@ + t@,
{
    let mut s = String::new();
    push_text(&mut s, prefix);
    push_text(&mut s, t);
    assert(s@ =~= prefix@ + t@);
    s
}

/// The characters that Unicode calls white space.
pub open spec fn is_space(c: char) -> bool {
    let u = c as u32;
    ||| 9 <= u <= 13
    ||| u == 32
    ||| u == 0x85
    ||| u == 0xA0
    ||| u == 0x1680
    ||| 0x2000 <= u <= 0x200A
    ||| u == 0x2028
    ||| u == 0x2029
    ||| u == 0x202F
    ||| u == 0x205F
    ||| u == 0x3000
}

/// A text without the white space around it.
pub open spec fn trimmed(s: Seq<char>) -> Seq<char>
    decreases s.len(),
{
    if s.len() == 0 {
        s
    } else if is_space(s[0]) {
        trimmed(s.subrange(1, s.len() as int))
    } else if is_space(s.last()) {
        trimmed(s.drop_last())
    } else {
        s
    }
}

fn space(c: char) -> (b: bool)
    ensures
        b == is_space(c),
{
    let u: u32 = c as u32;
    (9 <= u && u <= 13) || u == 32 || u == 0x85 || u == 0xA0 || u == 0x1680 || (0x2000 <= u && u
        <= 0x200A) || u == 0x2028 || u == 0x2029 || u == 0x202F || u == 0x205F || u == 0x3000
}

/// A copy of part of a list of characters.
pub fn part_of(s: &[char], from: usize, to: usize) -> (r: Vec<char>)
    requires
        from <= to <= s@.len(),
    ensures
        r@ == s@.subrange(from as int, to as int),
{
    let mut r: Vec<char> = Vec::new();
    let mut i: usize = from;
    while i < to
        invariant
            from <= i <= to <= s@.len(),
            r@ =~= s@.subrange(from as int, i as int),
        decreases to - i,
    {
        r.push(s[i]);
        i = i + 1;
    }
    r
}

/// Removes the white space around a text.
pub fn trim_chars(s: &[char]) -> (r: Vec<char>)
    ensures
        r@ == trimmed(s@),
{
    let mut from: usize = 0;
    let mut to: usize = s.len();
    assert(s@.subrange(0, to as int) =~= s@);
    while from < to && space(s[from])
        invariant
            from <= to == s@.len(),
            trimmed(s@) == trimmed(s@.subrange(from as int, to as int)),
        ensures
            from <= to == s@.len(),
            trimmed(s@) == trimmed(s@.subrange(from as int, to as int)),
            from < to ==> !is_space(s@[from as int]),
        decreases to - from,
    {
        let ghost here = s@.subrange(from as int, to as int);
        assert(here.subrange(1, here.len() as int) =~= s@.subrange(from + 1, to as int));
        from = from + 1;
    }
    while from < to && space(s[to - 1])
        invariant
            from <= to <= s@.len(),
            trimmed(s@) == trimmed(s@.subrange(from as int, to as int)),
            from < to ==> !is_space(s@[from as int]),
        ensures
            from <= to <= s@.len(),
            trimmed(s@) == trimmed(s@.subrange(from as int, to as int)),
            from < to ==> !is_space(s@[from as int]) && !is_space(s@[to - 1]),
        decreases to - from,
    {
        let ghost here = s@.subrange(from as int, to as int);
        assert(here.drop_last() =~= s@.subrange(from as int, to - 1));
        assert(here[0] == s@[from as int]);
        assert(here.last() == s@[to - 1]);
        to = to - 1;
    }
    part_of(s, from, to)
}

/// The first place of a character, from `i` on, or the length.
pub open spec fn place_of(s: Seq<char>, c: char, i: int) -> int
    decreases s.len() - i,
{
    if i >= s.len() {
        s.len() as int
    } else if s[i] == c {
        i
    } else {
        place_of(s, c, i + 1)
    }
}

/// Finds the first place of a character, from `from` on.
pub fn find_char(s: &[char], c: char, from: usize) -> (i: usize)
    requires
        from <= s@.len(),
    ensures
        i == place_of(s@, c, from as int),
        from <= i <= s@.len(),
        i < s@.len() ==> s@[i as int] == c,
{
    let mut i: usize = from;
    while i < s.len() && s[i] != c
        invariant
            from <= i <= s@.len(),
            place_of(s@, c, from as int) == place_of(s@, c, i as int),
        ensures
            from <= i <= s@.len(),
            place_of(s@, c, from as int) == place_of(s@, c, i as int),
            i < s@.len() ==> s@[i as int] == c,
        decreases s@.len() - i,
    {
        i = i + 1;
    }
    i
}

/// Compares two lists of characters.
pub fn same_chars(x: &[char], y: &[char]) -> (b: bool)
    ensures
        b == (x@ == y@),
{
    if x.len() != y.len() {
        return false;
    }
    let mut i: usize = 0;
    while i < x.len()
        invariant
            i <= x@.len() == y@.len(),
            forall|j: int| 0 <= j < i ==> x@[j] == y@[j],
        decreases x@.len() - i,
    {
        if x[i] != y[i] {
            return false;
        }
        i = i + 1;
    }
    assert(x@ =~= y@);
    true
}

/// A character with an upper-case letter of ASCII made lower-case.
pub open spec fn lower(c: char) -> char {
    if 'A' <= c && c <= 'Z' {
        (c as u32 + 32) as char
    } else {
        c
    }
}

/// A text with the upper-case letters of ASCII made lower-case.
pub open spec fn lowered(s: Seq<char>) -> Seq<char> {
    s.map_values(|c: char| lower(c))
}

/// Makes an upper-case letter of ASCII lower-case.
pub fn lower_char(c: char) -> (r: char)
    ensures
        r == lower(c),
{
    if 'A' <= c && c <= 'Z' {
        (c as u8 + 32) as char
    } else {
        c
    }
}

/// Makes the upper-case letters of ASCII lower-case.
pub fn lower_chars(s: &[char]) -> (r: Vec<char>)
    ensures
        r@ == lowered(s@),
{
    let mut r: Vec<char> = Vec::new();
    let mut i: usize = 0;
    while i < s.len()
        invariant
            i <= s@.len(),
            r@ =~= lowered(s@).take(i as int),
        decreases s@.len() - i,
    {
        r.push(lower_char(s[i]));
        i = i + 1;
    }
    assert(r@ =~= lowered(s@));
    r
}

/// The number that digits stand for, the most significant first.
pub open spec fn value_of(s: Seq<char>) -> int
    decreases s.len(),
{
    if s.len() == 0 {
        0
    } else {
        10 * value_of(s.drop_last()) + (s.last() as u32 - 48)
    }
}

/// True for the ten digits.
pub open spec fn is_digit(c: char) -> bool {
    '0' <= c && c <= '9'
}

/// A number in decimal consists of digits, the first of which is no zero unless it is the only
/// one, and they stand for the number.
pub proof fn law_decimal_stands_for_its_number(n: nat)
    ensures
        decimal(n).len() > 0,
        forall|i: int| 0 <= i < decimal(n).len() ==> is_digit(#[trigger] decimal(n)[i]),
        value_of(decimal(n)) == n,
        decimal(n).len() > 1 ==> decimal(n)[0] != '0',
        n > 0 ==> decimal(n)[0] != '0',
    decreases n,
{
    reveal_with_fuel(value_of, 2);
    if n >= 10 {
        let rest = decimal(n / 10);
        law_decimal_stands_for_its_number(n / 10);
        assert(decimal(n).drop_last() =~= rest);
        assert(decimal(n)[0] == rest[0]);
        assert forall|i: int| 0 <= i < decimal(n).len() implies is_digit(#[trigger] decimal(n)[i]) by {
            if i < rest.len() {
                assert(decimal(n)[i] == rest[i]);
            }
        }
    } else {
        assert(decimal(n).drop_last() =~= seq![]);
    }
}

/// A number below zero has a minus sign before the digits of its magnitude, any other has none.
pub proof fn law_signed_decimal_shows_the_sign(n: int)
    ensures
        n < 0 ==> signed_decimal(n)[0] == '-' && value_of(signed_decimal(n).skip(1)) == -n,
        n >= 0 ==> is_digit(signed_decimal(n)[0]) && value_of(signed_decimal(n)) == n,
{
    if n < 0 {
        law_decimal_stands_for_its_number((-n) as nat);
        assert(signed_decimal(n).skip(1) =~= decimal((-n) as nat));
    } else {
        law_decimal_stands_for_its_number(n as nat);
    }
}

/// Of the characters of ASCII the blank and the five controls from tab to carriage return are
/// white space.
pub proof fn law_ascii_spaces(c: char)
    requires
        (c as u32) < 128,
    ensures
        is_space(c) == (c == ' ' || c == '\t' || c == '\n' || c == '\r' || c as u32 == 11 || c as u32
            == 12),
{
}

/// The middle of a text from `i` to `j`, with nothing but white space around it.
pub open spec fn middle(s: Seq<char>, i: int, j: int) -> bool {
    &&& 0 <= i <= j <= s.len()
    &&& forall|k: int| 0 <= k < i || j <= k < s.len() ==> #[trigger] is_space(s[k])
}

proof fn lemma_trimmed_ends(s: Seq<char>)
    ensures
        trimmed(s).len() > 0 ==> !is_space(trimmed(s)[0]) && !is_space(trimmed(s).last()),
    decreases s.len(),
{
    if s.len() > 0 {
        if is_space(s[0]) {
            lemma_trimmed_ends(s.subrange(1, s.len() as int));
        } else if is_space(s.last()) {
            lemma_trimmed_ends(s.drop_last());
        }
    }
}

proof fn lemma_trimmed_middle(s: Seq<char>, i: int, j: int) -> (r: (int, int))
    requires
        middle(s, i, j),
    ensures
        middle(s, r.0, r.1),
        trimmed(s.subrange(i, j)) == s.subrange(r.0, r.1),
    decreases j - i,
{
    let t = s.subrange(i, j);
    if t.len() == 0 {
        (i, j)
    } else if is_space(t[0]) {
        assert(t[0] == s[i]);
        assert(t.subrange(1, t.len() as int) =~= s.subrange(i + 1, j));
        assert(middle(s, i + 1, j));
        lemma_trimmed_middle(s, i + 1, j)
    } else if is_space(t.last()) {
        assert(t.last() == s[j - 1]);
        assert(t.drop_last() =~= s.subrange(i, j - 1));
        assert(middle(s, i, j - 1));
        lemma_trimmed_middle(s, i, j - 1)
    } else {
        (i, j)
    }
}

/// Trimming takes white space off both ends, all of it, and nothing else.
pub proof fn law_trimming_takes_the_ends_off(s: Seq<char>)
    ensures
        trimmed(s).len() > 0 ==> !is_space(trimmed(s)[0]) && !is_space(trimmed(s).last()),
        exists|i: int, j: int| #[trigger] middle(s, i, j) && trimmed(s) == s.subrange(i, j),
{
    lemma_trimmed_ends(s);
    assert(s.subrange(0, s.len() as int) =~= s);
    assert(middle(s, 0, s.len() as int));
    let r = lemma_trimmed_middle(s, 0, s.len() as int);
}

/// The place of a character is the first from where the search begins, and the length where it
/// does not occur.
pub proof fn law_place_is_the_first(s: Seq<char>, c: char, i: int)
    requires
        0 <= i <= s.len(),
    ensures
        i <= place_of(s, c, i) <= s.len(),
        place_of(s, c, i) < s.len() ==> s[place_of(s, c, i)] == c,
        forall|k: int| i <= k < place_of(s, c, i) ==> #[trigger] s[k] != c,
    decreases s.len() - i,
{
    if i < s.len() && s[i] != c {
        law_place_is_the_first(s, c, i + 1);
    }
}

/// The letters of ASCII become the lower-case ones at the same place of the alphabet, and every
/// other character stays.
pub proof fn law_lowering_letters(c: char, k: int)
    requires
        0 <= k < 26,
    ensures
        c as u32 == 'A' as u32 + k ==> lower(c) as u32 == 'a' as u32 + k,
        !('A' <= c && c <= 'Z') ==> lower(c) == c,
        lower(lower(c)) == lower(c),
{
}

} // verus!
