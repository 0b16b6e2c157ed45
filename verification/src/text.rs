//! Characters and numbers in header text.

use vstd::prelude::*;

verus! {

/// Whether two strings hold the same characters.
pub fn same_text(a: &str, b: &str) -> (yes: bool)
    ensures
        yes == (a@ == b@),
{
    let x = chars_of(a);
    let y = chars_of(b);
    same_chars(&x, &y)
}

/// Whether two vectors hold the same characters.
pub fn same_chars(a: &Vec<char>, b: &Vec<char>) -> (yes: bool)
    ensures
        yes == (a@ == b@),
{
    if a.len() != b.len() {
        return false;
    }
    let mut i: usize = 0;
    while i < a.len()
        invariant
            i <= a@.len(),
            a@.len() == b@.len(),
            forall|j: int| 0 <= j < i ==> a@[j] == b@[j],
        decreases a@.len() - i,
    {
        if a[i] != b[i] {
            return false;
        }
        i += 1;
    }
    assert(a@ =~= b@);
    true
}

/// The characters of `s`.
pub fn chars_of(s: &str) -> (chars: Vec<char>)
    ensures
        chars@ == s@,
{
    let mut chars: Vec<char> = Vec::new();
    for c in it: s.chars()
        invariant
            chars@ == it.seq().take(it.index() as int),
            it.seq() == s@,
    {
        proof {
            assert(it.seq().take(it.index() + 1) =~= it.seq().take(it.index() as int).push(c));
        }
        chars.push(c);
    }
    chars
}

/// Whether `c` is white space, as Unicode's `White_Space` property has it.
pub open spec fn is_space(c: char) -> bool {
    let u = c as u32;
    ||| 0x9 <= u <= 0xd
    ||| u == 0x20
    ||| u == 0x85
    ||| u == 0xa0
    ||| u == 0x1680
    ||| 0x2000 <= u <= 0x200a
    ||| u == 0x2028
    ||| u == 0x2029
    ||| u == 0x202f
    ||| u == 0x205f
    ||| u == 0x3000
}

/// Whether `c` is white space.
fn space(c: char) -> (yes: bool)
    ensures
        yes == is_space(c),
{
    let u: u32 = c as u32;
    (0x9 <= u && u <= 0xd) || u == 0x20 || u == 0x85 || u == 0xa0 || u == 0x1680 || (0x2000 <= u
        && u <= 0x200a) || u == 0x2028 || u == 0x2029 || u == 0x202f || u == 0x205f || u == 0x3000
}

/// Whether `c` is an ASCII digit.
pub open spec fn is_digit(c: char) -> bool {
    '0' as u32 <= c as u32 <= '9' as u32
}

/// Whether `c` is an ASCII letter.
pub open spec fn is_letter(c: char) -> bool {
    ||| 'a' as u32 <= c as u32 <= 'z' as u32
    ||| 'A' as u32 <= c as u32 <= 'Z' as u32
}

/// Whether `c` is an ASCII digit.
pub fn digit(c: char) -> (yes: bool)
    ensures
        yes == is_digit(c),
{
    '0' as u32 <= c as u32 && c as u32 <= '9' as u32
}

/// Whether `c` is an ASCII letter.
pub fn letter(c: char) -> (yes: bool)
    ensures
        yes == is_letter(c),
{
    ('a' as u32 <= c as u32 && c as u32 <= 'z' as u32) || ('A' as u32 <= c as u32 && c as u32
        <= 'Z' as u32)
}

/// `s` without the white space at its start.
pub open spec fn trim_start(s: Seq<char>) -> Seq<char>
    decreases s.len(),
{
    if s.len() > 0 && is_space(s[0]) {
        trim_start(s.drop_first())
    } else {
        s
    }
}

/// `s` without the white space at its end.
pub open spec fn trim_end(s: Seq<char>) -> Seq<char>
    decreases s.len(),
{
    if s.len() > 0 && is_space(s.last()) {
        trim_end(s.drop_last())
    } else {
        s
    }
}

/// `s` without the white space at its ends.
pub open spec fn trimmed(s: Seq<char>) -> Seq<char> {
    trim_end(trim_start(s))
}

/// The characters of `s` from `from` up to `to`.
pub fn slice_of(s: &Vec<char>, from: usize, to: usize) -> (part: Vec<char>)
    requires
        from <= to <= s@.len(),
    ensures
        part@ == s@.subrange(from as int, to as int),
{
    let mut part: Vec<char> = Vec::new();
    let mut i: usize = from;
    while i < to
        invariant
            from <= i <= to <= s@.len(),
            part@ == s@.subrange(from as int, i as int),
        decreases to - i,
    {
        part.push(s[i]);
        i += 1;
        assert(s@.subrange(from as int, i as int) =~= s@.subrange(from as int, i - 1).push(
            s@[i - 1],
        ));
    }
    part
}

/// The characters of `s` without the white space at its ends.
pub fn trim(s: &str) -> (part: Vec<char>)
    ensures
        part@ == trimmed(s@),
{
    let all = chars_of(s);
    let mut from: usize = 0;
    assert(all@.skip(0) =~= all@);
    while from < all.len() && space(all[from])
        invariant
            from <= all@.len(),
            trim_start(all@) == trim_start(all@.skip(from as int)),
        decreases all@.len() - from,
    {
        assert(all@.skip(from as int).drop_first() =~= all@.skip(from + 1));
        from += 1;
    }
    let mut to: usize = all.len();
    let ghost front = all@.skip(from as int);
    assert(trim_start(all@) == front);
    assert(all@.subrange(from as int, to as int) =~= front);
    while to > from && space(all[to - 1])
        invariant
            from <= to <= all@.len(),
            trim_end(front) == trim_end(all@.subrange(from as int, to as int)),
        decreases to,
    {
        assert(all@.subrange(from as int, to as int).drop_last() =~= all@.subrange(
            from as int,
            to - 1,
        ));
        to -= 1;
    }
    slice_of(&all, from, to)
}

/// The number that decimal digits spell.
pub open spec fn decimal(s: Seq<char>) -> nat
    decreases s.len(),
{
    if s.len() == 0 {
        0
    } else {
        decimal(s.drop_last()) * 10 + (s.last() as u32 - '0' as u32) as nat
    }
}

/// Whether `s` is one or more digits.
pub open spec fn all_digits(s: Seq<char>) -> bool {
    &&& s.len() > 0
    &&& forall|i: int| 0 <= i < s.len() ==> is_digit(#[trigger] s[i])
}

/// The number that `s` spells: digits, with or without a plus sign before them.
pub open spec fn unsigned(s: Seq<char>) -> Option<nat> {
    let body = if s.len() > 0 && s[0] == '+' {
        s.drop_first()
    } else {
        s
    };
    if all_digits(body) {
        Some(decimal(body))
    } else {
        None
    }
}

/// The number that `s` spells: digits, with or without a sign before them.
pub open spec fn signed(s: Seq<char>) -> Option<int> {
    if s.len() > 0 && s[0] == '-' {
        if all_digits(s.drop_first()) {
            Some(-(decimal(s.drop_first()) as int))
        } else {
            None
        }
    } else {
        match unsigned(s) {
            Some(n) => Some(n as int),
            None => None,
        }
    }
}

/// The number that `s` spells, if it is at most `max`.
pub open spec fn unsigned_to(s: Seq<char>, max: nat) -> Option<nat> {
    match unsigned(s) {
        Some(n) => if n <= max {
            Some(n)
        } else {
            None
        },
        None => None,
    }
}

/// Digits spell no less than any of their beginnings.
proof fn lemma_decimal_grows(s: Seq<char>, n: int)
    requires
        0 <= n <= s.len(),
        forall|i: int| 0 <= i < s.len() ==> is_digit(#[trigger] s[i]),
    ensures
        decimal(s.take(n)) <= decimal(s),
    decreases s.len() - n,
{
    if n == s.len() {
        assert(s.take(n) =~= s);
    } else {
        lemma_decimal_grows(s, n + 1);
        assert(s.take(n + 1).drop_last() =~= s.take(n));
        assert(s.take(n + 1).last() == s[n]);
    }
}

/// The number that the digits of `s` from `from` on spell, if it is at most `max`.
fn parse_digits(s: &Vec<char>, from: usize, max: u64) -> (n: Option<u64>)
    requires
        from <= s@.len(),
    ensures
        n == (if all_digits(s@.skip(from as int)) && decimal(s@.skip(from as int)) <= max {
            Some(decimal(s@.skip(from as int)) as u64)
        } else {
            None
        }),
{
    let ghost body = s@.skip(from as int);
    if from == s.len() {
        return None;
    }
    let mut n: u64 = 0;
    let mut i: usize = from;
    while i < s.len()
        invariant
            from <= i <= s@.len(),
            body == s@.skip(from as int),
            forall|j: int| 0 <= j < i - from ==> is_digit(#[trigger] body[j]),
            n == decimal(body.take(i - from)),
            n <= max,
        decreases s@.len() - i,
    {
        assert(body[i - from] == s@[i as int]);
        if !digit(s[i]) {
            return None;
        }
        let next: u128 = n as u128 * 10 + (s[i] as u32 - '0' as u32) as u128;
        assert(body.take(i - from + 1).drop_last() =~= body.take(i - from));
        assert(body.take(i - from + 1).last() == s@[i as int]);
        assert(next == decimal(body.take(i - from + 1)));
        if next > max as u128 {
            proof {
                if all_digits(body) {
                    lemma_decimal_grows(body, i - from + 1);
                }
            }
            return None;
        }
        n = next as u64;
        i += 1;
    }
    assert(body.take(i - from) =~= body);
    Some(n)
}

/// The number that `s` spells, if it is at most `max`.
pub fn parse_unsigned(s: &Vec<char>, max: u64) -> (n: Option<u64>)
    ensures
        n == (match unsigned_to(s@, max as nat) {
            Some(n) => Some(n as u64),
            None => None,
        }),
{
    let from: usize = if s.len() > 0 && s[0] == '+' {
        1
    } else {
        0
    };
    assert(s@.skip(0) =~= s@);
    assert(s@.len() > 0 ==> s@.skip(1) =~= s@.drop_first());
    parse_digits(s, from, max)
}

/// The number that `s` spells, if it fits in `u32`.
pub fn parse_u32(s: &Vec<char>) -> (n: Option<u32>)
    ensures
        n == (match unsigned_to(s@, u32::MAX as nat) {
            Some(n) => Some(n as u32),
            None => None,
        }),
{
    match parse_unsigned(s, u32::MAX as u64) {
        Some(n) => Some(n as u32),
        None => None,
    }
}

/// The number that `s` spells, sign and all, if it fits in `i64`.
pub open spec fn signed_i64(s: Seq<char>) -> Option<i64> {
    match signed(s) {
        Some(n) => if i64::MIN <= n <= i64::MAX {
            Some(n as i64)
        } else {
            None
        },
        None => None,
    }
}

/// The number that `s` spells, sign and all, if it fits in `i64`.
pub fn parse_i64(s: &Vec<char>) -> (n: Option<i64>)
    ensures
        n == signed_i64(s@),
{
    if s.len() > 0 && s[0] == '-' {
        assert(s@.skip(1) =~= s@.drop_first());
        match parse_digits(s, 1, 0x8000_0000_0000_0000) {
            Some(n) => {
                if n == 0x8000_0000_0000_0000 {
                    Some(i64::MIN)
                } else {
                    Some(-(n as i64))
                }
            },
            None => None,
        }
    } else {
        match parse_unsigned(s, i64::MAX as u64) {
            Some(n) => Some(n as i64),
            None => None,
        }
    }
}

/// The texts that the vectors in `parts` hold.
pub open spec fn texts(parts: Seq<Vec<char>>) -> Seq<Seq<char>> {
    parts.map_values(|part: Vec<char>| part@)
}

/// The pieces of `s` between the separators `sep`, of which there is always at least one.
pub open spec fn split(s: Seq<char>, sep: char) -> Seq<Seq<char>>
    decreases s.len(),
{
    if s.len() == 0 {
        seq![Seq::<char>::empty()]
    } else {
        let front = split(s.drop_last(), sep);
        if s.last() == sep {
            front.push(Seq::<char>::empty())
        } else {
            front.drop_last().push(front.last().push(s.last()))
        }
    }
}

/// The words of `s`: its longest runs without white space.
pub open spec fn words(s: Seq<char>) -> Seq<Seq<char>>
    decreases s.len(),
{
    if s.len() == 0 {
        Seq::<Seq<char>>::empty()
    } else {
        let front = words(s.drop_last());
        if is_space(s.last()) {
            front
        } else if s.len() == 1 || is_space(s[s.len() - 2]) || front.len() == 0 {
            front.push(seq![s.last()])
        } else {
            front.drop_last().push(front.last().push(s.last()))
        }
    }
}

/// The pieces of `s` between the separators `sep`.
pub fn split_at(s: &Vec<char>, sep: char) -> (parts: Vec<Vec<char>>)
    ensures
        texts(parts@) == split(s@, sep),
{
    let mut parts: Vec<Vec<char>> = Vec::new();
    let mut part: Vec<char> = Vec::new();
    let mut i: usize = 0;
    assert(texts(parts@).push(part@) =~= split(s@.take(0), sep));
    while i < s.len()
        invariant
            i <= s@.len(),
            texts(parts@).push(part@) == split(s@.take(i as int), sep),
        decreases s@.len() - i,
    {
        let ghost front = split(s@.take(i as int), sep);
        let ghost done = texts(parts@);
        assert(s@.take(i + 1).drop_last() =~= s@.take(i as int));
        assert(front.drop_last() =~= done);
        assert(front.last() == part@);
        if s[i] == sep {
            parts.push(part);
            part = Vec::new();
            assert(texts(parts@) =~= front);
        } else {
            part.push(s[i]);
        }
        i += 1;
    }
    assert(s@.take(i as int) =~= s@);
    let ghost done = texts(parts@);
    let ghost last = part@;
    parts.push(part);
    assert(texts(parts@) =~= done.push(last));
    parts
}

/// The words of `s`.
pub fn words_of(s: &Vec<char>) -> (parts: Vec<Vec<char>>)
    ensures
        texts(parts@) == words(s@),
{
    let mut parts: Vec<Vec<char>> = Vec::new();
    let mut i: usize = 0;
    assert(texts(parts@) =~= words(s@.take(0)));
    while i < s.len()
        invariant
            i <= s@.len(),
            texts(parts@) == words(s@.take(i as int)),
        decreases s@.len() - i,
    {
        let ghost front = texts(parts@);
        assert(s@.take(i + 1).drop_last() =~= s@.take(i as int));
        if !space(s[i]) {
            if i == 0 || space(s[i - 1]) || parts.len() == 0 {
                let mut part: Vec<char> = Vec::new();
                part.push(s[i]);
                parts.push(part);
                assert(texts(parts@) =~= front.push(seq![s@[i as int]]));
            } else {
                let ghost before = parts@;
                let mut part: Vec<char> = parts.pop().unwrap();
                assert(texts(parts@) =~= front.drop_last());
                part.push(s[i]);
                parts.push(part);
                assert(texts(parts@) =~= front.drop_last().push(front.last().push(s@[i as int])));
            }
        }
        i += 1;
    }
    assert(s@.take(i as int) =~= s@);
    parts
}

/// `c` in lower case, if it is an ASCII letter.
pub open spec fn lower(c: char) -> char {
    if 'A' as u32 <= c as u32 <= 'Z' as u32 {
        (c as u32 + 32) as char
    } else {
        c
    }
}

/// `s` with its ASCII letters in lower case.
pub open spec fn folded(s: Seq<char>) -> Seq<char> {
    s.map_values(|c: char| lower(c))
}

/// The code of `c` in lower case, if it is an ASCII letter.
fn lower_code(c: char) -> (u: u32)
    ensures
        u == lower(c) as u32,
{
    let u: u32 = c as u32;
    if 'A' as u32 <= u && u <= 'Z' as u32 {
        u + 32
    } else {
        u
    }
}

/// Whether `a` and `b` are the same but for the case of ASCII letters.
pub fn same_folded(a: &Vec<char>, b: &Vec<char>) -> (yes: bool)
    ensures
        yes == (folded(a@) == folded(b@)),
{
    if a.len() != b.len() {
        assert(folded(a@).len() != folded(b@).len());
        return false;
    }
    let mut i: usize = 0;
    while i < a.len()
        invariant
            i <= a@.len(),
            a@.len() == b@.len(),
            forall|j: int| 0 <= j < i ==> lower(a@[j]) == lower(b@[j]),
        decreases a@.len() - i,
    {
        if lower_code(a[i]) != lower_code(b[i]) {
            assert(folded(a@)[i as int] != folded(b@)[i as int]);
            return false;
        }
        i += 1;
    }
    assert(folded(a@) =~= folded(b@));
    true
}

} // verus!
