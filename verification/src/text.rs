//! Plain-text formatting and parsing.

use vstd::arithmetic::power::{lemma_pow1, pow};
use vstd::prelude::*;
use vstd::string::*;

verus! {

// -- white space ------------------------------------------------------------
/// Unicode white space.
pub open spec fn blank(c: char) -> bool {
    let u = c as u32;
    (9 <= u <= 13) || u == 0x20 || u == 0x85 || u == 0xA0 || u == 0x1680 || (0x2000 <= u <= 0x200A)
        || u == 0x2028 || u == 0x2029 || u == 0x202F || u == 0x205F || u == 0x3000
}

/// Whether a character is white space.
pub fn is_blank(c: char) -> (r: bool)
    ensures
        r == blank(c),
{
    let u: u32 = c as u32;
    (9 <= u && u <= 13) || u == 0x20 || u == 0x85 || u == 0xA0 || u == 0x1680 || (0x2000 <= u && u
        <= 0x200A) || u == 0x2028 || u == 0x2029 || u == 0x202F || u == 0x205F || u == 0x3000
}

/// `t` is `s` without leading and trailing white space.
pub open spec fn trims(s: Seq<char>, t: Seq<char>) -> bool {
    exists|a: int, b: int|
        #![trigger s.subrange(a, b)]
        0 <= a <= b <= s.len() && t == s.subrange(a, b) && (forall|i: int|
            0 <= i < a ==> blank(#[trigger] s[i])) && (forall|i: int|
            b <= i < s.len() ==> blank(#[trigger] s[i])) && (a < b ==> !blank(s[a]) && !blank(
            s[b - 1],
        ))
}

/// Text without leading and trailing white space.
pub open spec fn trimmed(s: Seq<char>) -> Seq<char> {
    choose|t: Seq<char>| trims(s, t)
}

/// There is only one way to trim.
pub proof fn law_trim_unique(s: Seq<char>, t: Seq<char>, u: Seq<char>)
    requires
        trims(s, t),
        trims(s, u),
    ensures
        t == u,
{
    let (a, b) = choose|a: int, b: int|
        #![trigger s.subrange(a, b)]
        0 <= a <= b <= s.len() && t == s.subrange(a, b) && (forall|i: int|
            0 <= i < a ==> blank(#[trigger] s[i])) && (forall|i: int|
            b <= i < s.len() ==> blank(#[trigger] s[i])) && (a < b ==> !blank(s[a]) && !blank(
            s[b - 1],
        ));
    let (c, d) = choose|a: int, b: int|
        #![trigger s.subrange(a, b)]
        0 <= a <= b <= s.len() && u == s.subrange(a, b) && (forall|i: int|
            0 <= i < a ==> blank(#[trigger] s[i])) && (forall|i: int|
            b <= i < s.len() ==> blank(#[trigger] s[i])) && (a < b ==> !blank(s[a]) && !blank(
            s[b - 1],
        ));
    if a < b {
        assert(!blank(s[a]) && !blank(s[b - 1]));
        assert(c <= a && d > b - 1);
    }
    if c < d {
        assert(!blank(s[c]) && !blank(s[d - 1]));
        assert(a <= c && b > d - 1);
    }
    assert(t =~= u);
}

/// Remove leading and trailing white space.
pub fn trim<'a>(s: &'a str) -> (t: &'a str)
    ensures
        trims(s@, t@),
        t@ == trimmed(s@),
{
    let n: usize = s.unicode_len();
    let mut a: usize = 0;
    while a < n && is_blank(s.get_char(a))
        invariant
            n == s@.len(),
            a <= n,
            forall|i: int| 0 <= i < a ==> blank(#[trigger] s@[i]),
        decreases n - a,
    {
        a = a + 1;
    }
    let mut b: usize = n;
    while b > a && is_blank(s.get_char(b - 1))
        invariant
            n == s@.len(),
            a <= b <= n,
            forall|i: int| b <= i < n ==> blank(#[trigger] s@[i]),
        decreases b,
    {
        b = b - 1;
    }
    let t: &'a str = s.substring_char(a, b);
    proof {
        assert(t@ == s@.subrange(a as int, b as int));
        assert(trims(s@, t@));
        law_trim_unique(s@, t@, trimmed(s@));
    }
    t
}

/// Trimming leaves nothing exactly when there was nothing but white space, and
/// leaves text without white space at its ends alone.
pub proof fn law_trim(s: Seq<char>, t: Seq<char>)
    requires
        trims(s, t),
    ensures
        t.len() == 0 <==> (forall|i: int| 0 <= i < s.len() ==> blank(#[trigger] s[i])),
        s.len() > 0 && !blank(s[0]) && !blank(s.last()) ==> t == s,
{
    let (a, b) = choose|a: int, b: int|
        #![trigger s.subrange(a, b)]
        0 <= a <= b <= s.len() && t == s.subrange(a, b) && (forall|i: int|
            0 <= i < a ==> blank(#[trigger] s[i])) && (forall|i: int|
            b <= i < s.len() ==> blank(#[trigger] s[i])) && (a < b ==> !blank(s[a]) && !blank(
            s[b - 1],
        ));
    if s.len() > 0 && !blank(s[0]) && !blank(s.last()) {
        assert(a == 0) by {
            if a > 0 {
                assert(blank(s[0]));
            }
        }
        assert(b == s.len()) by {
            if b < s.len() {
                assert(blank(s[s.len() - 1]));
            }
        }
        assert(s.subrange(0, s.len() as int) =~= s);
    }
}

// -- digits -----------------------------------------------------------------
/// The character of a decimal digit.
pub open spec fn digit(d: int) -> char {
    if d == 0 {
        '0'
    } else if d == 1 {
        '1'
    } else if d == 2 {
        '2'
    } else if d == 3 {
        '3'
    } else if d == 4 {
        '4'
    } else if d == 5 {
        '5'
    } else if d == 6 {
        '6'
    } else if d == 7 {
        '7'
    } else if d == 8 {
        '8'
    } else {
        '9'
    }
}

/// Decimal digits of a number.
pub open spec fn digits(n: int) -> Seq<char>
    decreases n,
{
    if n < 10 {
        seq![digit(n)]
    } else {
        digits(n / 10).push(digit(n % 10))
    }
}

/// The last `k` decimal digits of a number, zeros included.
pub open spec fn last_digits(n: int, k: int) -> Seq<char>
    decreases k,
{
    if k <= 0 {
        Seq::empty()
    } else {
        last_digits(n / 10, k - 1).push(digit(n % 10))
    }
}

/// Ten to the `d`.
pub open spec fn ten_to(d: int) -> int {
    if d <= 0 {
        1
    } else if d == 1 {
        10
    } else if d == 2 {
        100
    } else {
        1000
    }
}

/// `n / den` to the nearest whole number, an exact half to the even one.
pub open spec fn to_even(n: int, den: int) -> int {
    let q = n / den;
    let twice = 2 * (n % den);
    if twice > den || (twice == den && q % 2 == 1) {
        q + 1
    } else {
        q
    }
}

/// Billionths in a unit of `10^-d`.
pub open spec fn place(d: int) -> int {
    1_000_000_000int / ten_to(d)
}

/// A fixed-point number written with `d` decimals. What is below zero keeps its
/// sign, even where it rounds to nothing.
pub open spec fn decimal(v: int, d: int) -> Seq<char> {
    let n = to_even(
        if v < 0 {
            -v
        } else {
            v
        },
        place(d),
    );
    let whole = digits(n / ten_to(d));
    let text = if d <= 0 {
        whole
    } else {
        whole + seq!['.'] + last_digits(n % ten_to(d), d)
    };
    if v < 0 {
        seq!['-'] + text
    } else {
        text
    }
}

/// `n` spaces.
pub open spec fn spaces(n: int) -> Seq<char> {
    Seq::new(
        if n < 0 {
            0
        } else {
            n as nat
        },
        |i: int| ' ',
    )
}

/// Text filled with spaces to a width, on the right when `left`-aligned.
pub open spec fn filled(s: Seq<char>, width: int, left: bool) -> Seq<char> {
    if left {
        s + spaces(width - s.len())
    } else {
        spaces(width - s.len()) + s
    }
}

fn digit_text(d: u64) -> (t: &'static str)
    requires
        d < 10,
    ensures
        t@ == seq![digit(d as int)],
{
    proof {
        reveal_strlit("0");
        reveal_strlit("1");
        reveal_strlit("2");
        reveal_strlit("3");
        reveal_strlit("4");
        reveal_strlit("5");
        reveal_strlit("6");
        reveal_strlit("7");
        reveal_strlit("8");
        reveal_strlit("9");
    }
    let t: &'static str = if d == 0 {
        "0"
    } else if d == 1 {
        "1"
    } else if d == 2 {
        "2"
    } else if d == 3 {
        "3"
    } else if d == 4 {
        "4"
    } else if d == 5 {
        "5"
    } else if d == 6 {
        "6"
    } else if d == 7 {
        "7"
    } else if d == 8 {
        "8"
    } else {
        "9"
    };
    assert(t@ =~= seq![digit(d as int)]);
    t
}

fn push_digits(out: &mut String, n: u128)
    ensures
        final(out)@ == old(out)@ + digits(n as int),
    decreases n,
{
    if n >= 10 {
        push_digits(out, n / 10);
    }
    out.append(digit_text((n % 10) as u64));
    assert(out@ =~= old(out)@ + digits(n as int));
}

fn push_last_digits(out: &mut String, n: u64, k: u32)
    ensures
        final(out)@ == old(out)@ + last_digits(n as int, k as int),
    decreases k,
{
    if k > 0 {
        push_last_digits(out, n / 10, k - 1);
        out.append(digit_text(n % 10));
    }
    assert(out@ =~= old(out)@ + last_digits(n as int, k as int));
}

/// Write a fixed-point number with `d` decimals.
pub fn decimal_text(v: i128, d: u32) -> (out: String)
    requires
        d <= 3,
    ensures
        out@ == decimal(v as int, d as int),
{
    proof {
        reveal_strlit("-");
        reveal_strlit(".");
    }
    let m: u128 = if v >= 0 {
        v as u128
    } else if v == i128::MIN {
        0x8000_0000_0000_0000_0000_0000_0000_0000
    } else {
        (-v) as u128
    };
    let unit: u128 = if d == 0 {
        1
    } else if d == 1 {
        10
    } else if d == 2 {
        100
    } else {
        1000
    };
    let den: u128 = 1_000_000_000 / unit;
    let (q, twice): (u128, u128) = (m / den, 2 * (m % den));
    let n: u128 = if twice > den || (twice == den && q % 2 == 1) {
        q + 1
    } else {
        q
    };
    let mut out: String = String::new();
    if v < 0 {
        out.append("-");
    }
    let ghost sign = out@;
    push_digits(&mut out, n / unit);
    if d > 0 {
        out.append(".");
        push_last_digits(&mut out, (n % unit) as u64, d);
    }
    proof {
        assert(n == to_even(m as int, place(d as int)));
        assert("-"@ =~= seq!['-']);
        assert("."@ =~= seq!['.']);
        assert(out@ =~= decimal(v as int, d as int));
    }
    out
}

fn push_spaces(out: &mut String, n: usize)
    ensures
        final(out)@ == old(out)@ + spaces(n as int),
    decreases n,
{
    proof {
        reveal_strlit(" ");
    }
    if n > 0 {
        push_spaces(out, n - 1);
        out.append(" ");
    }
    assert(out@ =~= old(out)@ + spaces(n as int));
}

/// Append text filled with spaces to a width.
pub fn push_filled(out: &mut String, s: &str, width: usize, left: bool)
    ensures
        final(out)@ == old(out)@ + filled(s@, width as int, left),
{
    let n: usize = s.unicode_len();
    let gap: usize = if width > n {
        width - n
    } else {
        0
    };
    assert(spaces(gap as int) =~= spaces(width - n));
    if left {
        out.append(s);
        push_spaces(out, gap);
    } else {
        push_spaces(out, gap);
        out.append(s);
    }
    assert(out@ =~= old(out)@ + filled(s@, width as int, left));
}

// -- pieces -----------------------------------------------------------------
/// A part of a line of text.
#[derive(Clone, Copy)]
pub enum Piece<'a> {
    /// Text as it is.
    Text(&'a str),
    /// Text aligned right in a width.
    Right(&'a str, usize),
    /// A fixed-point number with some decimals, aligned right in a width.
    Num(i128, u32, usize),
    /// A whole number, aligned left in a width.
    Left(u64, usize),
}

/// What a [`Piece`] says.
pub enum Part {
    Text(Seq<char>),
    Right(Seq<char>, int),
    Num(int, int, int),
    Left(int, int),
}

impl<'a> View for Piece<'a> {
    type V = Part;

    open spec fn view(&self) -> Part {
        match self {
            Piece::Text(s) => Part::Text(s@),
            Piece::Right(s, w) => Part::Right(s@, *w as int),
            Piece::Num(v, d, w) => Part::Num(*v as int, *d as int, *w as int),
            Piece::Left(v, w) => Part::Left(*v as int, *w as int),
        }
    }
}

impl Part {
    /// At most three decimals.
    pub open spec fn valid(self) -> bool {
        self matches Part::Num(v, d, w) ==> 0 <= d <= 3
    }

    /// The text is at most ten thousand characters long, the number is a 128-bit
    /// one, and the width is at most a thousand.
    pub open spec fn short(self) -> bool {
        match self {
            Part::Text(s) => s.len() <= 10_000,
            Part::Right(s, w) => s.len() <= 10_000 && w <= 1000,
            Part::Num(v, d, w) => i128::MIN <= v <= i128::MAX && w <= 1000,
            Part::Left(v, w) => 0 <= v <= u64::MAX && w <= 1000,
        }
    }

    /// The characters of the part.
    pub open spec fn chars(self) -> Seq<char> {
        match self {
            Part::Text(s) => s,
            Part::Right(s, w) => filled(s, w, false),
            Part::Num(v, d, w) => filled(decimal(v, d), w, false),
            Part::Left(v, w) => filled(digits(v), w, true),
        }
    }
}

/// The parts of a line.
pub open spec fn parts(pieces: Seq<Piece>) -> Seq<Part> {
    Seq::new(pieces.len(), |i: int| pieces[i]@)
}

/// The characters of the first `n` parts.
pub open spec fn line_chars(parts: Seq<Part>, n: int) -> Seq<char>
    decreases n,
{
    if n <= 0 {
        Seq::empty()
    } else {
        line_chars(parts, n - 1) + parts[n - 1].chars()
    }
}

/// Every part can be written.
pub open spec fn all_parts_valid(parts: Seq<Part>) -> bool {
    forall|i: int| 0 <= i < parts.len() ==> (#[trigger] parts[i]).valid()
}

/// Every part is short.
pub open spec fn all_parts_short(parts: Seq<Part>) -> bool {
    forall|i: int| 0 <= i < parts.len() ==> (#[trigger] parts[i]).short()
}

proof fn lemma_digits_len(n: int, k: nat)
    requires
        0 <= n < pow(10, k),
        k >= 1,
    ensures
        digits(n).len() <= k,
    decreases n,
{
    if n >= 10 {
        if k == 1 {
            lemma_pow1(10);
        } else {
            assert(pow(10, k) == 10 * pow(10, (k - 1) as nat)) by {
                reveal(pow);
            }
            assert(n / 10 < pow(10, (k - 1) as nat));
        }
        lemma_digits_len(n / 10, (k - 1) as nat);
    }
}

proof fn lemma_last_digits_len(n: int, k: int)
    requires
        0 <= k,
    ensures
        last_digits(n, k).len() == k,
    decreases k,
{
    if k > 0 {
        lemma_last_digits_len(n / 10, k - 1);
    }
}

/// Short parts of a line are short when written.
pub proof fn lemma_part_len(part: Part)
    requires
        part.short(),
        part.valid(),
    ensures
        part.chars().len() <= 10_000,
{
    match part {
        Part::Text(s) => {},
        Part::Right(s, w) => {},
        Part::Num(v, d, w) => {
            lemma_decimal_len(v, d);
        },
        Part::Left(v, w) => {
            assert(pow(10, 20) == 100_000_000_000_000_000_000int) by {
                reveal_with_fuel(pow, 21);
            }
            lemma_digits_len(v, 20);
        },
    }
}

proof fn lemma_decimal_len(v: int, d: int)
    requires
        i128::MIN <= v <= i128::MAX,
        0 <= d <= 3,
    ensures
        decimal(v, d).len() <= 60,
{
    let m = if v < 0 {
        -v
    } else {
        v
    };
    let n = to_even(m, place(d));
    assert(0 <= m / place(d) <= m) by (nonlinear_arith)
        requires
            m >= 0,
            place(d) >= 1,
    ;
    assert(0 <= n / ten_to(d) <= n) by (nonlinear_arith)
        requires
            n >= 0,
            ten_to(d) >= 1,
    ;
    assert(pow(10, 40) == 10_000_000_000_000_000_000_000_000_000_000_000_000_000int) by {
        reveal_with_fuel(pow, 41);
    }
    lemma_digits_len(n / ten_to(d), 40);
    lemma_last_digits_len(n % ten_to(d), d);
}

/// A line of short parts is short when written.
pub proof fn lemma_line_len(parts: Seq<Part>, n: int)
    requires
        0 <= n <= parts.len(),
        all_parts_valid(parts),
        all_parts_short(parts),
    ensures
        line_chars(parts, n).len() <= 10_000 * n,
    decreases n,
{
    if n > 0 {
        lemma_line_len(parts, n - 1);
        assert(parts[n - 1].valid() && parts[n - 1].short());
        lemma_part_len(parts[n - 1]);
    }
}

/// Write a line of pieces.
pub fn line_text(pieces: &Vec<Piece>) -> (out: String)
    requires
        all_parts_valid(parts(pieces@)),
    ensures
        out@ == line_chars(parts(pieces@), pieces@.len() as int),
{
    let mut out: String = String::new();
    let mut i: usize = 0;
    assert(out@ =~= Seq::<char>::empty());
    while i < pieces.len()
        invariant
            i <= pieces@.len(),
            all_parts_valid(parts(pieces@)),
            out@ == line_chars(parts(pieces@), i as int),
        decreases pieces@.len() - i,
    {
        assert(parts(pieces@)[i as int] == pieces@[i as int]@);
        assert(parts(pieces@)[i as int].valid());
        match pieces[i] {
            Piece::Text(s) => {
                out.append(s);
            },
            Piece::Right(s, w) => {
                push_filled(&mut out, s, w, false);
            },
            Piece::Num(v, d, w) => {
                let t: String = decimal_text(v, d);
                push_filled(&mut out, t.as_str(), w, false);
            },
            Piece::Left(v, w) => {
                let mut t: String = String::new();
                push_digits(&mut t, v as u128);
                assert(t@ =~= digits(v as int));
                push_filled(&mut out, t.as_str(), w, true);
            },
        }
        i = i + 1;
    }
    out
}

// -- parsing ----------------------------------------------------------------
/// Value of a decimal digit.
pub open spec fn digit_value(c: char) -> int {
    c as u32 - 48
}

/// A decimal digit.
pub open spec fn is_digit(c: char) -> bool {
    48 <= c as u32 <= 57
}

/// Value of a run of decimal digits.
pub open spec fn value(s: Seq<char>) -> int
    decreases s.len(),
{
    if s.len() == 0 {
        0
    } else {
        value(s.drop_last()) * 10 + digit_value(s.last())
    }
}

/// The digits of a number as written: a leading plus sign is allowed.
pub open spec fn unsigned_digits(s: Seq<char>) -> Seq<char> {
    if s.len() > 0 && s[0] == '+' {
        s.drop_first()
    } else {
        s
    }
}

/// `s` writes a number no larger than `max`.
pub open spec fn writes_number(s: Seq<char>, max: int) -> bool {
    let d = unsigned_digits(s);
    &&& d.len() > 0
    &&& forall|i: int| 0 <= i < d.len() ==> is_digit(#[trigger] d[i])
    &&& value(d) <= max
}

proof fn lemma_value_prefix(d: Seq<char>, i: int, j: int)
    requires
        0 <= i <= j <= d.len(),
        forall|k: int| 0 <= k < d.len() ==> is_digit(#[trigger] d[k]),
    ensures
        0 <= value(d.take(i)) <= value(d.take(j)),
    decreases j,
{
    if j > 0 {
        assert(d.take(j).drop_last() =~= d.take(j - 1));
        assert(is_digit(d[j - 1]));
        if i < j {
            lemma_value_prefix(d, i, j - 1);
        } else {
            lemma_value_prefix(d, i - 1, j - 1);
        }
    }
}

/// Parse an unsigned number: an optional plus sign and decimal digits, no larger
/// than `max`.
pub fn parse_number(s: &str, max: u64) -> (r: Option<u64>)
    ensures
        r is Some <==> writes_number(s@, max as int),
        r is Some ==> r->0 == value(unsigned_digits(s@)),
{
    let n: usize = s.unicode_len();
    let start: usize = if n > 0 && s.get_char(0) == '+' {
        1
    } else {
        0
    };
    let ghost d = unsigned_digits(s@);
    assert(forall|k: int| 0 <= k < d.len() ==> #[trigger] d[k] == s@[k + start]);
    if start == n {
        assert(d.len() == 0);
        return None;
    }
    let mut v: u64 = 0;
    let mut i: usize = start;
    assert(d.take(0) =~= Seq::<char>::empty());
    while i < n
        invariant
            n == s@.len(),
            start <= i <= n,
            d == unsigned_digits(s@),
            d.len() == n - start,
            d.len() > 0,
            forall|k: int| 0 <= k < d.len() ==> #[trigger] d[k] == s@[k + start],
            forall|k: int| 0 <= k < i - start ==> is_digit(#[trigger] d[k]),
            v == value(d.take(i - start)),
            v <= max,
        decreases n - i,
    {
        let c: char = s.get_char(i);
        let u: u32 = c as u32;
        let ghost k = i - start;
        assert(d[k] == c);
        if u < 48 || u > 57 {
            assert(!is_digit(d[k]));
            return None;
        }
        let wide: u128 = v as u128 * 10 + (u - 48) as u128;
        proof {
            assert(d.take(k + 1).drop_last() =~= d.take(k));
            assert(d.take(k + 1).last() == c);
        }
        if wide > max as u128 {
            proof {
                if forall|j: int| 0 <= j < d.len() ==> is_digit(#[trigger] d[j]) {
                    lemma_value_prefix(d, k + 1, d.len() as int);
                    assert(d.take(d.len() as int) =~= d);
                }
            }
            return None;
        }
        v = wide as u64;
        i = i + 1;
    }
    assert(d.take(d.len() as int) =~= d);
    Some(v)
}

// -- what is written reads back -----------------------------------------------
/// White space is what Unicode calls so: the controls from tab to carriage return,
/// the space and next line, and the wider and narrower spaces and separators.
pub proof fn law_blank(c: char)
    ensures
        blank(c) <==> set![
            9u32,
            10u32,
            11u32,
            12u32,
            13u32,
            32u32,
            133u32,
            160u32,
            5760u32,
            8192u32,
            8193u32,
            8194u32,
            8195u32,
            8196u32,
            8197u32,
            8198u32,
            8199u32,
            8200u32,
            8201u32,
            8202u32,
            8232u32,
            8233u32,
            8239u32,
            8287u32,
            12288u32,
        ].contains(c as u32),
{
}

/// A digit stands for its value.
pub proof fn law_digit(d: int)
    requires
        0 <= d < 10,
    ensures
        is_digit(digit(d)),
        digit_value(digit(d)) == d,
{
}

/// The digits of a number read back as that number, and none of them is a leading
/// zero unless it is the only one.
pub proof fn law_digits_read_back(n: int)
    requires
        n >= 0,
    ensures
        value(digits(n)) == n,
        digits(n).len() >= 1,
        digits(n)[0] == '0' ==> n == 0,
        forall|i: int| 0 <= i < digits(n).len() ==> is_digit(#[trigger] digits(n)[i]),
    decreases n,
{
    if n < 10 {
        law_digit(n);
        let s = digits(n);
        assert(s.drop_last() =~= Seq::empty());
        assert(value(s.drop_last()) == 0);
    } else {
        law_digits_read_back(n / 10);
        law_digit(n % 10);
        let s = digits(n);
        assert(s.drop_last() =~= digits(n / 10));
        assert(s[0] == digits(n / 10)[0]);
    }
}

/// The last digits of a number, as many as asked for, read back as what it exceeds
/// the multiples of their power of ten by. Returns that multiple.
pub proof fn law_last_digits(n: int, k: int) -> (q: int)
    requires
        n >= 0,
        0 <= k <= 3,
    ensures
        ({
            let s = last_digits(n, k);
            let whole = if k == 0 {
                1int
            } else if k == 1 {
                10
            } else if k == 2 {
                100
            } else {
                1000
            };
            &&& s.len() == k
            &&& 0 <= q
            &&& 0 <= value(s) < whole
            &&& n == q * whole + value(s)
            &&& forall|i: int| 0 <= i < s.len() ==> is_digit(#[trigger] s[i])
        }),
    decreases k,
{
    let s = last_digits(n, k);
    if k == 0 {
        assert(value(s) == 0);
        n
    } else {
        let q = law_last_digits(n / 10, k - 1);
        law_digit(n % 10);
        assert(s.drop_last() =~= last_digits(n / 10, k - 1));
        q
    }
}

/// A number is written rounded to its last place, to the even one of two as near.
/// Its whole part and its places, together, read back as that many of the last
/// place; what is below zero has a minus before it. Returns the rounded number and
/// the two parts.
pub proof fn law_decimal_reads_back(v: int, d: int) -> (r: (int, Seq<char>, Seq<char>))
    requires
        0 <= d <= 3,
    ensures
        ({
            let (n, whole, places) = r;
            let size = if v < 0 {
                -v
            } else {
                v
            };
            let scale = if d == 0 {
                1int
            } else if d == 1 {
                10
            } else if d == 2 {
                100
            } else {
                1000
            };
            let unit = 1_000_000_000int / scale;
            let text = if d == 0 {
                whole
            } else {
                whole + seq!['.'] + places
            };
            &&& -unit <= 2 * (size - unit * n) <= unit
            &&& 2 * (size - unit * n) == unit || 2 * (size - unit * n) == -unit ==> n % 2 == 0
            &&& whole.len() >= 1
            &&& places.len() == d
            &&& value(whole) * scale + value(places) == n
            &&& forall|i: int| 0 <= i < whole.len() ==> is_digit(#[trigger] whole[i])
            &&& forall|i: int| 0 <= i < places.len() ==> is_digit(#[trigger] places[i])
            &&& v < 0 ==> decimal(v, d) == seq!['-'] + text
            &&& v >= 0 ==> decimal(v, d) == text
        }),
{
    let size = if v < 0 {
        -v
    } else {
        v
    };
    let n = to_even(size, place(d));
    assert(place(d) == 1_000_000_000int / ten_to(d));
    if d == 0 {
        assert(place(d) == 1_000_000_000);
    } else if d == 1 {
        assert(place(d) == 100_000_000);
    } else if d == 2 {
        assert(place(d) == 10_000_000);
    } else {
        assert(place(d) == 1_000_000);
    }
    law_to_even(size, place(d));
    let scale = ten_to(d);
    let whole = digits(n / scale);
    law_digits_read_back(n / scale);
    let places = last_digits(n % scale, d);
    let q = law_last_digits(n % scale, d);
    assert(q == 0) by (nonlinear_arith)
        requires
            n % scale == q * scale + value(places),
            0 <= n % scale < scale,
            0 <= value(places),
            0 <= q,
            scale >= 1,
    ;
    (n, whole, places)
}

/// Rounding takes the nearest whole number, and of two as near the even one.
pub proof fn law_to_even(n: int, den: int)
    requires
        n >= 0,
        den > 0,
    ensures
        to_even(n, den) >= 0,
        -den <= 2 * (n - den * to_even(n, den)) <= den,
        2 * (n - den * to_even(n, den)) == den || 2 * (n - den * to_even(n, den)) == -den
            ==> to_even(n, den) % 2 == 0,
{
    vstd::arithmetic::div_mod::lemma_fundamental_div_mod(n, den);
    vstd::arithmetic::div_mod::lemma_mod_bound(n, den);
    let q = n / den;
    assert(q >= 0) by (nonlinear_arith)
        requires
            den * q + den > n,
            n >= 0,
            den > 0,
    ;
    assert(den * (q + 1) == den * q + den) by (nonlinear_arith);
}

/// A text is padded with spaces to its width, and whole: at the left end of the
/// room or at the right. One that is wider takes the room it needs.
pub proof fn law_filled(s: Seq<char>, width: int, left: bool, i: int)
    requires
        0 <= i < filled(s, width, left).len(),
    ensures
        ({
            let t = filled(s, width, left);
            let spare = t.len() - s.len();
            &&& s.len() >= width ==> t.len() == s.len()
            &&& s.len() < width ==> t.len() == width
            &&& left && i < s.len() ==> t[i] == s[i]
            &&& left && i >= s.len() ==> t[i] == ' '
            &&& !left && i < spare ==> t[i] == ' '
            &&& !left && i >= spare ==> t[i] == s[i - spare]
        }),
{
}

/// What each part of a line looks like: texts as they are or at the right of their
/// room, numbers to their places at the right, counts at the left.
pub proof fn law_part_chars(s: Seq<char>, v: int, d: int, w: int)
    ensures
        Part::Text(s).chars() == s,
        Part::Right(s, w).chars() == filled(s, w, false),
        Part::Num(v, d, w).chars() == filled(decimal(v, d), w, false),
        Part::Left(v, w).chars() == filled(digits(v), w, true),
{
}

/// A line is its parts one behind the other: each stands whole behind those before
/// it.
pub proof fn law_line_holds_parts(parts: Seq<Part>, n: int, i: int, k: int)
    requires
        0 <= i < n <= parts.len(),
        0 <= k < parts[i].chars().len(),
    ensures
        line_chars(parts, 0).len() == 0,
        line_chars(parts, i + 1).len() == line_chars(parts, i).len() + parts[i].chars().len(),
        line_chars(parts, i + 1).len() <= line_chars(parts, n).len(),
        line_chars(parts, n)[line_chars(parts, i).len() + k] == parts[i].chars()[k],
    decreases n,
{
    if i < n - 1 {
        law_line_holds_parts(parts, n - 1, i, k);
    }
}

/// A number that was written reads back, with or without a plus before it, where it
/// is no more than the most that is accepted.
pub proof fn law_number_reads_back(n: int, max: int)
    requires
        n >= 0,
    ensures
        writes_number(digits(n), max) <==> n <= max,
        value(unsigned_digits(digits(n))) == n,
        writes_number(seq!['+'] + digits(n), max) <==> n <= max,
        value(unsigned_digits(seq!['+'] + digits(n))) == n,
{
    law_digits_read_back(n);
    let s = digits(n);
    assert(is_digit(s[0]));
    assert((seq!['+'] + s).drop_first() =~= s);
}

/// What is accepted as a number is at least one digit, nothing but digits, and a
/// plus before them at most.
pub proof fn law_number_is_digits(s: Seq<char>, max: int, i: int)
    requires
        writes_number(s, max),
        0 <= i < s.len(),
    ensures
        is_digit(s[i]) || (i == 0 && s[0] == '+' && s.len() > 1),
{
    let d = unsigned_digits(s);
    if s[0] == '+' {
        if i > 0 {
            assert(d[i - 1] == s[i]);
            assert(is_digit(d[i - 1]));
        }
    } else {
        assert(is_digit(d[i]));
    }
}

/// What is left of a trimmed text is one stretch of it, with nothing but white space
/// before and behind, that neither starts nor ends with any. Returns where it starts.
pub proof fn law_trim_ends(s: Seq<char>, t: Seq<char>, i: int) -> (at: int)
    requires
        trims(s, t),
        0 <= i < s.len(),
    ensures
        0 <= at <= at + t.len() <= s.len(),
        i < at || i >= at + t.len() ==> blank(s[i]),
        at <= i < at + t.len() ==> s[i] == t[i - at],
        t.len() > 0 ==> !blank(t[0]) && !blank(t.last()),
{
    let (a, b) = choose|a: int, b: int|
        #![trigger s.subrange(a, b)]
        0 <= a <= b <= s.len() && t == s.subrange(a, b) && (forall|i: int|
            0 <= i < a ==> blank(#[trigger] s[i])) && (forall|i: int|
            b <= i < s.len() ==> blank(#[trigger] s[i])) && (a < b ==> !blank(s[a]) && !blank(
            s[b - 1],
        ));
    a
}

} // verus!
