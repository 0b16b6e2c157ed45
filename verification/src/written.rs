//! How numbers and dates are written, and that they are read back as they were written.

use vstd::prelude::*;

use crate::text::{
    all_digits, decimal, folded, is_digit, is_letter, is_space, lower, signed, signed_i64, split,
    trim_end, trim_start, trimmed, unsigned, unsigned_to, words,
};

verus! {

/// The character for a digit.
pub open spec fn digit_char(d: nat) -> char {
    if d == 0 {
        '0'
    } else if d == 1 {
        '1'
    } else if d == 2 {
        '2'
    } else if d == 3 {
        '3'
    } else if d == 4 {
        '4'
    } else if d == 5 {
        '5'
    } else if d == 6 {
        '6'
    } else if d == 7 {
        '7'
    } else if d == 8 {
        '8'
    } else {
        '9'
    }
}

/// The last `width` decimal digits of `n`.
pub open spec fn padded(n: nat, width: nat) -> Seq<char>
    decreases width,
{
    if width == 0 {
        Seq::empty()
    } else {
        padded(n / 10, (width - 1) as nat).push(digit_char(n % 10))
    }
}

/// `n` in decimal.
pub open spec fn written(n: nat) -> Seq<char>
    decreases n,
{
    if n < 10 {
        seq![digit_char(n)]
    } else {
        written(n / 10).push(digit_char(n % 10))
    }
}

/// Ten to the power of `width`.
pub open spec fn ten_to(width: nat) -> nat
    decreases width,
{
    if width == 0 {
        1
    } else {
        10 * ten_to((width - 1) as nat)
    }
}

/// Whether `s` holds nothing but white space.
pub open spec fn blank(s: Seq<char>) -> bool {
    forall|i: int| 0 <= i < s.len() ==> is_space(#[trigger] s[i])
}

/// Whether `s` is a word: some text without white space.
pub open spec fn is_word(s: Seq<char>) -> bool {
    &&& s.len() > 0
    &&& forall|i: int| 0 <= i < s.len() ==> !is_space(#[trigger] s[i])
}

/// Whether `c` does not occur in `s`.
pub open spec fn lacks(s: Seq<char>, c: char) -> bool {
    forall|i: int| 0 <= i < s.len() ==> #[trigger] s[i] != c
}

/// A number with leading zeros has its width and reads as the number, if that has no more digits.
pub proof fn lemma_padded(n: nat, width: nat)
    requires
        width > 0,
    ensures
        padded(n, width).len() == width,
        all_digits(padded(n, width)),
        n < ten_to(width) ==> decimal(padded(n, width)) == n,
    decreases width,
{
    let front = padded(n / 10, (width - 1) as nat);
    let s = padded(n, width);
    assert(s.drop_last() =~= front);
    assert(is_digit(digit_char(n % 10)));
    if width > 1 {
        lemma_padded(n / 10, (width - 1) as nat);
        assert forall|i: int| 0 <= i < s.len() implies is_digit(#[trigger] s[i]) by {
            if i < front.len() {
                assert(s[i] == front[i]);
            }
        }
    } else {
        assert(front.len() == 0);
        assert(ten_to(1) == 10 * ten_to(0));
        assert(decimal(front) == 0);
    }
    if n < ten_to(width) {
        assert(n / 10 < ten_to((width - 1) as nat));
        assert(decimal(front) == n / 10);
        assert(decimal(s) == decimal(front) * 10 + (s.last() as u32 - '0' as u32) as nat);
    }
}

/// A number in decimal reads as the number.
pub proof fn lemma_written(n: nat)
    ensures
        all_digits(written(n)),
        decimal(written(n)) == n,
        unsigned(written(n)) == Some(n),
        signed(written(n)) == Some(n as int),
    decreases n,
{
    let s = written(n);
    if n < 10 {
        assert(s.drop_last().len() == 0);
        assert(decimal(s.drop_last()) == 0);
    } else {
        lemma_written(n / 10);
        let front = written(n / 10);
        assert(s.drop_last() =~= front);
        assert forall|i: int| 0 <= i < s.len() implies is_digit(#[trigger] s[i]) by {
            if i < front.len() {
                assert(s[i] == front[i]);
            }
        }
    }
    lemma_digits_are_a_number(s);
}

/// Digits are read as the number that they spell, and are no separator and no white space.
pub proof fn lemma_digits_are_a_number(s: Seq<char>)
    requires
        all_digits(s),
    ensures
        unsigned(s) == Some(decimal(s)),
        signed(s) == Some(decimal(s) as int),
        decimal(s) <= i64::MAX ==> signed_i64(s) == Some(decimal(s) as i64),
        is_word(s),
        forall|c: char| !is_digit(c) ==> #[trigger] lacks(s, c),
{
    assert(is_digit(s[0]));
    assert forall|i: int| 0 <= i < s.len() implies !is_space(#[trigger] s[i]) by {
        assert(is_digit(s[i]));
    }
}

/// A text without separators is one piece.
pub proof fn lemma_one_piece(s: Seq<char>, sep: char)
    requires
        lacks(s, sep),
    ensures
        split(s, sep) =~= seq![s],
    decreases s.len(),
{
    if s.len() > 0 {
        let front = s.drop_last();
        assert forall|i: int| 0 <= i < front.len() implies #[trigger] front[i] != sep by {
            assert(front[i] == s[i]);
        }
        lemma_one_piece(front, sep);
        assert(s[s.len() - 1] != sep);
        assert(split(s, sep)[0] =~= s);
    } else {
        assert(s =~= Seq::empty());
    }
}

/// What follows a separator, up to the next, is a piece of its own.
pub proof fn lemma_another_piece(a: Seq<char>, sep: char, b: Seq<char>)
    requires
        lacks(b, sep),
    ensures
        split(a.push(sep) + b, sep) =~= split(a, sep).push(b),
    decreases b.len(),
{
    let s = a.push(sep) + b;
    if b.len() == 0 {
        assert(s =~= a.push(sep));
        assert(s.drop_last() =~= a);
        assert(b =~= Seq::empty());
    } else {
        let front = b.drop_last();
        assert forall|i: int| 0 <= i < front.len() implies #[trigger] front[i] != sep by {
            assert(front[i] == b[i]);
        }
        lemma_another_piece(a, sep, front);
        assert(s.drop_last() =~= a.push(sep) + front);
        assert(b[b.len() - 1] != sep);
        assert(front.push(b.last()) =~= b);
        assert(split(a, sep).push(front).drop_last() =~= split(a, sep));
    }
}

/// A piece joined to others by separators is cut off again: three pieces are read as three.
pub proof fn lemma_three_pieces(a: Seq<char>, b: Seq<char>, c: Seq<char>, sep: char)
    requires
        lacks(a, sep),
        lacks(b, sep),
        lacks(c, sep),
    ensures
        split((a.push(sep) + b).push(sep) + c, sep) =~= seq![a, b, c],
{
    lemma_one_piece(a, sep);
    lemma_another_piece(a, sep, b);
    lemma_another_piece(a.push(sep) + b, sep, c);
}

/// A text of one word has that word.
pub proof fn lemma_one_word(s: Seq<char>)
    requires
        is_word(s),
    ensures
        words(s) =~= seq![s],
    decreases s.len(),
{
    let front = s.drop_last();
    assert(!is_space(s[s.len() - 1]));
    if s.len() == 1 {
        assert(front.len() == 0);
        assert(words(front).len() == 0);
        assert(s =~= seq![s.last()]);
    } else {
        assert forall|i: int| 0 <= i < front.len() implies !is_space(#[trigger] front[i]) by {
            assert(front[i] == s[i]);
        }
        lemma_one_word(front);
        assert(!is_space(s[s.len() - 2]));
        assert(words(s)[0] =~= s);
    }
}

/// What follows white space, up to the next, is a word of its own.
pub proof fn lemma_another_word(a: Seq<char>, space: char, b: Seq<char>)
    requires
        is_space(space),
        is_word(b),
    ensures
        words(a.push(space) + b) =~= words(a).push(b),
    decreases b.len(),
{
    let s = a.push(space) + b;
    let front = b.drop_last();
    assert(!is_space(b[b.len() - 1]));
    assert(s.last() == b[b.len() - 1]);
    assert(s.drop_last() =~= a.push(space) + front);
    if b.len() == 1 {
        assert(front.len() == 0);
        assert(s.drop_last() =~= a.push(space));
        assert(s.drop_last().drop_last() =~= a);
        assert(words(s.drop_last()) == words(a));
        assert(s[s.len() - 2] == space);
        assert(b =~= seq![b.last()]);
    } else {
        assert forall|i: int| 0 <= i < front.len() implies !is_space(#[trigger] front[i]) by {
            assert(front[i] == b[i]);
        }
        lemma_another_word(a, space, front);
        assert(s[s.len() - 2] == b[b.len() - 2]);
        assert(front.push(b.last()) =~= b);
        assert(words(a).push(front).drop_last() =~= words(a));
    }
}

/// White space at the end of a text adds no word.
pub proof fn lemma_no_word(a: Seq<char>, space: char)
    requires
        is_space(space),
    ensures
        words(a.push(space)) == words(a),
{
    assert(a.push(space).drop_last() =~= a);
}

/// White space round a text is taken off, and nothing else is.
pub proof fn lemma_trimmed(before: Seq<char>, s: Seq<char>, after: Seq<char>)
    requires
        blank(before),
        blank(after),
        s.len() > 0,
        !is_space(s[0]),
        !is_space(s.last()),
    ensures
        trimmed(before + s + after) == s,
{
    lemma_trim_start(before, s + after);
    lemma_trim_end(s, after);
    assert(before + s + after =~= before + (s + after));
}

proof fn lemma_trim_start(before: Seq<char>, s: Seq<char>)
    requires
        blank(before),
        s.len() > 0,
        !is_space(s[0]),
    ensures
        trim_start(before + s) == s,
    decreases before.len(),
{
    let all = before + s;
    if before.len() == 0 {
        assert(all =~= s);
    } else {
        let rest = before.drop_first();
        assert(is_space(before[0]));
        assert forall|i: int| 0 <= i < rest.len() implies is_space(#[trigger] rest[i]) by {
            assert(rest[i] == before[i + 1]);
        }
        assert(all.drop_first() =~= rest + s);
        lemma_trim_start(rest, s);
    }
}

proof fn lemma_trim_end(s: Seq<char>, after: Seq<char>)
    requires
        blank(after),
        s.len() > 0,
        !is_space(s.last()),
    ensures
        trim_end(s + after) == s,
    decreases after.len(),
{
    let all = s + after;
    if after.len() == 0 {
        assert(all =~= s);
    } else {
        let rest = after.drop_last();
        assert(is_space(after[after.len() - 1]));
        assert forall|i: int| 0 <= i < rest.len() implies is_space(#[trigger] rest[i]) by {
            assert(rest[i] == after[i]);
        }
        assert(all.drop_last() =~= s + rest);
        lemma_trim_end(s, rest);
    }
}

/// A number in decimal, with white space round it, reads as the number, if that is no more than
/// `max`, and as nothing if it is more.
pub proof fn lemma_written_and_trimmed(before: Seq<char>, n: nat, after: Seq<char>, max: nat)
    requires
        blank(before),
        blank(after),
    ensures
        trimmed(before + written(n) + after) == written(n),
        all_digits(written(n)),
        decimal(written(n)) == n,
        unsigned_to(written(n), max) == (if n <= max {
            Some(n)
        } else {
            None
        }),
        signed_i64(written(n)) == (if n <= i64::MAX {
            Some(n as i64)
        } else {
            None
        }),
{
    lemma_written(n);
    lemma_digits_are_a_number(written(n));
    let s = written(n);
    assert(is_digit(s[0]) && is_digit(s[s.len() - 1]));
    assert(!is_space(s[0]) && !is_space(s[s.len() - 1]));
    lemma_trimmed(before, s, after);
}

/// A sign makes a number negative, and is refused where none is expected.
pub proof fn lemma_signs(n: nat)
    ensures
        signed(seq!['-'] + written(n)) == Some(-(n as int)),
        unsigned(seq!['-'] + written(n)) is None,
        signed(seq!['+'] + written(n)) == Some(n as int),
        unsigned(seq!['+'] + written(n)) == Some(n),
{
    lemma_written(n);
    let minus = seq!['-'] + written(n);
    let plus = seq!['+'] + written(n);
    assert(minus.drop_first() =~= written(n));
    assert(plus.drop_first() =~= written(n));
    assert(!is_digit(minus[0]));
}

/// Two texts are the same but for case where each character of one is that of the other, or the
/// same ASCII letter in the other case.
pub proof fn lemma_the_same_but_for_case(a: Seq<char>, b: Seq<char>)
    ensures
        folded(a) == folded(b) <==> {
            &&& a.len() == b.len()
            &&& forall|i: int|
                #![trigger a[i], b[i]]
                0 <= i < a.len() ==> a[i] == b[i] || (is_letter(a[i]) && is_letter(b[i]) && (
                a[i] as int + 32 == b[i] as int || b[i] as int + 32 == a[i] as int))
        },
{
    if folded(a) == folded(b) {
        assert(folded(a).len() == folded(b).len());
        assert forall|i: int|
            #![trigger a[i], b[i]]
            0 <= i < a.len() implies a[i] == b[i] || (is_letter(a[i]) && is_letter(b[i]) && (
        a[i] as int + 32 == b[i] as int || b[i] as int + 32 == a[i] as int)) by {
            assert(folded(a)[i] == folded(b)[i]);
            lemma_lower(a[i], b[i]);
        }
    }
    if a.len() == b.len() && forall|i: int|
        #![trigger a[i], b[i]]
        0 <= i < a.len() ==> a[i] == b[i] || (is_letter(a[i]) && is_letter(b[i]) && (a[i] as int
            + 32 == b[i] as int || b[i] as int + 32 == a[i] as int)) {
        assert forall|i: int| 0 <= i < a.len() implies #[trigger] folded(a)[i] == folded(b)[i] by {
            assert(folded(a)[i] == lower(a[i]));
            assert(folded(b)[i] == lower(b[i]));
            lemma_lower(a[i], b[i]);
        }
        assert(folded(a) =~= folded(b));
    }
}

proof fn lemma_lower(a: char, b: char)
    ensures
        lower(a) == lower(b) <==> a == b || (is_letter(a) && is_letter(b) && (a as int + 32
            == b as int || b as int + 32 == a as int)),
{
}

/// A time of day as `hh:mm:ss`.
pub open spec fn clock_text(h: nat, m: nat, s: nat) -> Seq<char> {
    (padded(h, 2).push(':') + padded(m, 2)).push(':') + padded(s, 2)
}

/// A date as `YYYY-MM-DD`.
pub open spec fn date_text(year: nat, month: nat, day: nat) -> Seq<char> {
    (padded(year, 4).push('-') + padded(month, 2)).push('-') + padded(day, 2)
}

/// Numbers of two and of four digits.
pub proof fn lemma_widths()
    ensures
        ten_to(2) == 100,
        ten_to(4) == 10_000,
{
    assert(ten_to(0) == 1);
    assert(ten_to(1) == 10);
    assert(ten_to(2) == 100);
    assert(ten_to(3) == 1000);
}

/// A time of day is cut into its hour, minute and second.
pub proof fn lemma_clock_text(h: nat, m: nat, s: nat)
    requires
        h < 100,
        m < 100,
        s < 100,
    ensures
        split(clock_text(h, m, s), ':') =~= seq![padded(h, 2), padded(m, 2), padded(s, 2)],
        unsigned(padded(h, 2)) == Some(h),
        unsigned(padded(m, 2)) == Some(m),
        unsigned(padded(s, 2)) == Some(s),
        clock_text(h, m, s).len() == 8,
        is_word(clock_text(h, m, s)),
        forall|c: char| !is_digit(c) && c != ':' ==> #[trigger] lacks(clock_text(h, m, s), c),
{
    lemma_widths();
    lemma_padded(h, 2);
    lemma_padded(m, 2);
    lemma_padded(s, 2);
    lemma_digits_are_a_number(padded(h, 2));
    lemma_digits_are_a_number(padded(m, 2));
    lemma_digits_are_a_number(padded(s, 2));
    assert(!is_digit(':'));
    lemma_three_pieces(padded(h, 2), padded(m, 2), padded(s, 2), ':');
    let text = clock_text(h, m, s);
    assert forall|i: int| 0 <= i < text.len() implies is_digit(#[trigger] text[i]) || text[i]
        == ':' by {
        if i < 2 {
            assert(text[i] == padded(h, 2)[i]);
        } else if 3 <= i < 5 {
            assert(text[i] == padded(m, 2)[i - 3]);
        } else if 6 <= i {
            assert(text[i] == padded(s, 2)[i - 6]);
        }
    }
    assert forall|i: int| 0 <= i < text.len() implies !is_space(#[trigger] text[i]) by {
        assert(is_digit(text[i]) || text[i] == ':');
    }
    assert forall|c: char| !is_digit(c) && c != ':' implies #[trigger] lacks(text, c) by {
        assert forall|i: int| 0 <= i < text.len() implies #[trigger] text[i] != c by {
            assert(is_digit(text[i]) || text[i] == ':');
        }
    }
}

/// A date is cut into its year, month and day.
pub proof fn lemma_date_text(year: nat, month: nat, day: nat)
    requires
        year < 10_000,
        month < 100,
        day < 100,
    ensures
        split(date_text(year, month, day), '-') =~= seq![
            padded(year, 4),
            padded(month, 2),
            padded(day, 2),
        ],
        signed_i64(padded(year, 4)) == Some(year as i64),
        unsigned(padded(month, 2)) == Some(month),
        unsigned(padded(day, 2)) == Some(day),
        date_text(year, month, day).len() == 10,
        forall|c: char|
            !is_digit(c) && c != '-' ==> #[trigger] lacks(date_text(year, month, day), c),
{
    lemma_widths();
    lemma_padded(year, 4);
    lemma_padded(month, 2);
    lemma_padded(day, 2);
    lemma_digits_are_a_number(padded(year, 4));
    lemma_digits_are_a_number(padded(month, 2));
    lemma_digits_are_a_number(padded(day, 2));
    assert(!is_digit('-'));
    lemma_three_pieces(padded(year, 4), padded(month, 2), padded(day, 2), '-');
    let text = date_text(year, month, day);
    assert forall|i: int| 0 <= i < text.len() implies is_digit(#[trigger] text[i]) || text[i]
        == '-' by {
        if i < 4 {
            assert(text[i] == padded(year, 4)[i]);
        } else if 5 <= i < 7 {
            assert(text[i] == padded(month, 2)[i - 5]);
        } else if 8 <= i {
            assert(text[i] == padded(day, 2)[i - 8]);
        }
    }
    assert forall|c: char| !is_digit(c) && c != '-' implies #[trigger] lacks(text, c) by {
        assert forall|i: int| 0 <= i < text.len() implies #[trigger] text[i] != c by {
            assert(is_digit(text[i]) || text[i] == '-');
        }
    }
}

/// White space is what Unicode lists as such: tab, line feed, vertical tab, form feed, carriage
/// return, space, next line, the no-break spaces, the Ogham space, the spaces of fixed width, the
/// line and paragraph separators, the mathematical space and the ideographic space.
pub proof fn lemma_white_space(c: char)
    ensures
        is_space(c) <==> seq![
            0x09int,
            0x0a,
            0x0b,
            0x0c,
            0x0d,
            0x20,
            0x85,
            0xa0,
            0x1680,
            0x2000,
            0x2001,
            0x2002,
            0x2003,
            0x2004,
            0x2005,
            0x2006,
            0x2007,
            0x2008,
            0x2009,
            0x200a,
            0x2028,
            0x2029,
            0x202f,
            0x205f,
            0x3000,
        ].contains(c as int),
{
    let list = seq![
        0x09int,
        0x0a,
        0x0b,
        0x0c,
        0x0d,
        0x20,
        0x85,
        0xa0,
        0x1680,
        0x2000,
        0x2001,
        0x2002,
        0x2003,
        0x2004,
        0x2005,
        0x2006,
        0x2007,
        0x2008,
        0x2009,
        0x200a,
        0x2028,
        0x2029,
        0x202f,
        0x205f,
        0x3000,
    ];
    let u = c as int;
    if is_space(c) {
        let i = if u <= 0x0d {
            u - 9
        } else if u == 0x20 {
            5
        } else if u == 0x85 {
            6
        } else if u == 0xa0 {
            7
        } else if u == 0x1680 {
            8
        } else if u <= 0x200a {
            u - 0x2000 + 9
        } else if u == 0x2028 {
            20
        } else if u == 0x2029 {
            21
        } else if u == 0x202f {
            22
        } else if u == 0x205f {
            23
        } else {
            24
        };
        assert(list[i] == u);
    }
}

/// Digits are the ten from `0` to `9`, each the digit of one number below ten, and letters are
/// those of the English alphabet.
pub proof fn lemma_digits_and_letters(c: char, d: nat)
    requires
        d < 10,
    ensures
        is_digit(digit_char(d)),
        is_digit(c) ==> exists|n: nat| n < 10 && c == #[trigger] digit_char(n),
        is_letter(c) <==> 65 <= c as int <= 90 || 97 <= c as int <= 122,
        !(is_digit(c) && is_letter(c)),
        is_letter(c) || is_digit(c) ==> !is_space(c),
{
    if is_digit(c) {
        let n = (c as u32 - '0' as u32) as nat;
        assert(c == digit_char(n));
    }
}

/// Nothing is left of a text that holds nothing but white space.
pub proof fn lemma_blank_is_trimmed_to_nothing(s: Seq<char>)
    requires
        blank(s),
    ensures
        trimmed(s).len() == 0,
    decreases s.len(),
{
    if s.len() > 0 {
        let rest = s.drop_first();
        assert(is_space(s[0]));
        assert forall|i: int| 0 <= i < rest.len() implies is_space(#[trigger] rest[i]) by {
            assert(rest[i] == s[i + 1]);
        }
        lemma_blank_is_trimmed_to_nothing(rest);
    }
}

/// A signed number is read as long as it fits in `i64`, down to the least.
pub proof fn lemma_signed_numbers_fit(n: nat)
    ensures
        n <= 0x7fff_ffff_ffff_ffff ==> signed_i64(written(n)) == Some(n as i64),
        n > 0x7fff_ffff_ffff_ffff ==> signed_i64(written(n)) is None,
        n <= 0x8000_0000_0000_0000 ==> signed_i64(seq!['-'] + written(n)) == Some((-(n as int)) as i64),
        n > 0x8000_0000_0000_0000 ==> signed_i64(seq!['-'] + written(n)) is None,
{
    lemma_written(n);
    lemma_signs(n);
}

} // verus!
