//! Text as sequences of characters: numbers in decimal, white space, splitting.
use vstd::prelude::*;

verus! {

/// The decimal digit of value `d`.
pub open spec fn digit_char(d: int) -> char {
    (48 + d) as char
}

/// `n` in decimal, without leading zeros.
pub open spec fn decimal(n: nat) -> Seq<char>
    decreases n,
{
    if n < 10 {
        seq![digit_char(n as int)]
    } else {
        decimal(n / 10).push(digit_char((n % 10) as int))
    }
}

/// `n` in decimal, with a minus sign where it is negative.
pub open spec fn signed_decimal(n: int) -> Seq<char> {
    if n < 0 {
        seq!['-'] + decimal((-n) as nat)
    } else {
        decimal(n as nat)
    }
}

fn digit_str(d: u64) -> (r: &'static str)
    requires
        d < 10,
    ensures
        r@ == seq![digit_char(d as int)],
{
    proof {
        reveal_strlit("0");
        reveal_strlit("1");
        reveal_strlit("2");
        reveal_strlit("3");
        reveal_strlit("4");
        reveal_strlit("5");
        reveal_strlit("6");
        reveal_strlit("7");
        reveal_strlit("8");
        reveal_strlit("9");
    }
    let r = match d {
        0 => "0",
        1 => "1",
        2 => "2",
        3 => "3",
        4 => "4",
        5 => "5",
        6 => "6",
        7 => "7",
        8 => "8",
        _ => "9",
    };
    assert(r@ =~= seq![digit_char(d as int)]);
    r
}

/// Appends `n` in decimal.
pub fn push_decimal(s: &mut String, n: u64)
    ensures
        final(s)@ == old(s)@ + decimal(n as nat),
    decreases n,
{
    if n >= 10 {
        push_decimal(s, n / 10);
    }
    s.append(digit_str(n % 10));
    proof {
        assert(s@ =~= old(s)@ + decimal(n as nat));
    }
}

/// Appends `n` in decimal, with its sign where it is negative.
pub fn push_signed(s: &mut String, n: i64)
    ensures
        final(s)@ == old(s)@ + signed_decimal(n as int),
{
    if n < 0 {
        proof {
            reveal_strlit("-");
        }
        s.append("-");
        assert(s@ =~= old(s)@ + seq!['-']);
        let m: u64 = if n == i64::MIN {
            9_223_372_036_854_775_808u64
        } else {
            (-n) as u64
        };
        push_decimal(s, m);
        assert(s@ =~= old(s)@ + signed_decimal(n as int));
    } else {
        push_decimal(s, n as u64);
    }
}

/// Whether two strings hold the same characters.
pub fn same_text(a: &str, b: &str) -> (r: bool)
    ensures
        r == (a@ == b@),
{
    a.to_owned() == b.to_owned()
}

/// The characters of a string.
pub fn chars_of(s: &str) -> (r: Vec<char>)
    ensures
        r@ == s@,
{
    let mut r: Vec<char> = Vec::new();
    for c in it: s.chars()
        invariant
            r@ == s@.take(it.index() as int),
            it.seq() == s@,
    {
        r.push(c);
    }
    r
}

/// The characters with Unicode's `White_Space` property.
pub open spec fn is_white_space(c: char) -> bool {
    let u = c as u32;
    ||| 0x9 <= u <= 0xd
    ||| u == 0x20
    ||| u == 0x85
    ||| u == 0xa0
    ||| u == 0x1680
    ||| 0x2000 <= u <= 0x200a
    ||| u == 0x2028
    ||| u == 0x2029
    ||| u == 0x202f
    ||| u == 0x205f
    ||| u == 0x3000
}

/// Whether a character is white space.
pub fn white_space(c: char) -> (r: bool)
    ensures
        r == is_white_space(c),
{
    let u = c as u32;
    (0x9 <= u && u <= 0xd) || u == 0x20 || u == 0x85 || u == 0xa0 || u == 0x1680 || (0x2000 <= u && u <= 0x200a) || u
        == 0x2028 || u == 0x2029 || u == 0x202f || u == 0x205f || u == 0x3000
}

/// `s` without the white space that it starts with.
pub open spec fn trim_start(s: Seq<char>) -> Seq<char>
    decreases s.len(),
{
    if s.len() > 0 && is_white_space(s[0]) {
        trim_start(s.skip(1))
    } else {
        s
    }
}

/// `s` without the white space that it ends in.
pub open spec fn trim_end(s: Seq<char>) -> Seq<char>
    decreases s.len(),
{
    if s.len() > 0 && is_white_space(s.last()) {
        trim_end(s.drop_last())
    } else {
        s
    }
}

/// `s` without the white space around it.
pub open spec fn trimmed(s: Seq<char>) -> Seq<char> {
    trim_end(trim_start(s))
}

/// Takes the white space off both ends.
pub fn trim(s: &Vec<char>) -> (r: Vec<char>)
    ensures
        r@ == trimmed(s@),
{
    let n = s.len();
    let mut lo: usize = 0;
    assert(s@.skip(0) =~= s@);
    while lo < n && white_space(s[lo])
        invariant
            n == s@.len(),
            lo <= n,
            trim_start(s@) == trim_start(s@.skip(lo as int)),
        decreases n - lo,
    {
        assert(s@.skip(lo as int).skip(1) =~= s@.skip(lo + 1));
        lo = lo + 1;
    }
    let ghost rest = s@.skip(lo as int);
    assert(trim_start(s@) == rest);
    let mut hi: usize = n;
    assert(rest.take(hi - lo) =~= rest);
    while lo < hi && white_space(s[hi - 1])
        invariant
            n == s@.len(),
            lo <= hi <= n,
            rest == s@.skip(lo as int),
            trim_end(rest) == trim_end(rest.take(hi - lo)),
        decreases hi,
    {
        assert(rest.take(hi - lo).drop_last() =~= rest.take(hi - 1 - lo));
        hi = hi - 1;
    }
    let r = copy_part(s, lo, hi);
    assert(r@ =~= rest.take(hi - lo));
    r
}

/// The characters from `lo` up to `hi`.
pub fn copy_part(s: &Vec<char>, lo: usize, hi: usize) -> (r: Vec<char>)
    requires
        lo <= hi <= s@.len(),
    ensures
        r@ == s@.subrange(lo as int, hi as int),
{
    let mut r: Vec<char> = Vec::new();
    for i in lo..hi
        invariant
            lo <= hi <= s@.len(),
            r@ == s@.subrange(lo as int, i as int),
    {
        r.push(s[i]);
        assert(s@.subrange(lo as int, i + 1) =~= s@.subrange(lo as int, i as int).push(s@[i as int]));
    }
    r
}

/// The parts of `s` between the separators: every separator ends one part and
/// begins the next.
pub open spec fn parts(s: Seq<char>, separator: char) -> Seq<Seq<char>>
    decreases s.len(),
{
    if s.len() == 0 {
        seq![Seq::<char>::empty()]
    } else {
        let before = parts(s.drop_last(), separator);
        if s.last() == separator {
            before.push(Seq::<char>::empty())
        } else {
            before.drop_last().push(before.last().push(s.last()))
        }
    }
}

/// The contents of each part.
pub open spec fn texts(parts: Seq<Vec<char>>) -> Seq<Seq<char>> {
    Seq::new(parts.len(), |i: int| parts[i]@)
}

/// Splits `s` at every separator.
pub fn split(s: &Vec<char>, separator: char) -> (r: Vec<Vec<char>>)
    ensures
        texts(r@) == parts(s@, separator),
{
    let mut done: Vec<Vec<char>> = Vec::new();
    let mut current: Vec<char> = Vec::new();
    assert(parts(s@.take(0), separator) =~= texts(done@).push(current@));
    for i in 0..s.len()
        invariant
            parts(s@.take(i as int), separator) == texts(done@).push(current@),
    {
        let ghost before = texts(done@).push(current@);
        assert(s@.take(i + 1).drop_last() =~= s@.take(i as int));
        if s[i] == separator {
            let ghost part = current@;
            done.push(current);
            current = Vec::new();
            assert(texts(done@) =~= before);
            assert(parts(s@.take(i + 1), separator) =~= texts(done@).push(current@));
        } else {
            current.push(s[i]);
            assert(before.drop_last() =~= texts(done@));
            assert(parts(s@.take(i + 1), separator) =~= texts(done@).push(current@));
        }
    }
    assert(s@.take(s@.len() as int) =~= s@);
    let ghost all = texts(done@).push(current@);
    done.push(current);
    assert(texts(done@) =~= all);
    done
}

/// Where `c` stands in `s` for the first time.
pub fn find(s: &Vec<char>, c: char) -> (r: Option<usize>)
    ensures
        match r {
            Some(i) => s@.index_of_first(c) == Some(i as int) && i < s@.len(),
            None => s@.index_of_first(c) is None,
        },
{
    proof {
        s@.index_of_first_ensures(c);
    }
    for i in 0..s.len()
        invariant
            forall|j: int| 0 <= j < i ==> s@[j] != c,
    {
        if s[i] == c {
            proof {
                s@.index_of_first_ensures(c);
                assert(s@.contains(c));
            }
            return Some(i);
        }
    }
    None
}

/// Why a text is not a number.
#[derive(Clone, Copy, Debug, PartialEq, Eq, Structural)]
pub enum NumberError {
    Empty,
    InvalidDigit,
    TooLarge,
}

impl NumberError {
    pub open spec fn text(self) -> Seq<char> {
        match self {
            NumberError::Empty => "cannot parse integer from empty string"@,
            NumberError::InvalidDigit => "invalid digit found in string"@,
            NumberError::TooLarge => "number too large to fit in target type"@,
        }
    }

    /// What to tell the user.
    pub fn message(&self) -> (r: String)
        ensures
            r@ == self.text(),
    {
        match self {
            NumberError::Empty => "cannot parse integer from empty string".to_owned(),
            NumberError::InvalidDigit => "invalid digit found in string".to_owned(),
            NumberError::TooLarge => "number too large to fit in target type".to_owned(),
        }
    }
}

/// The number that a row of decimal digits stands for. Reading from the left,
/// what is wrong first decides the error.
pub open spec fn digits_value(s: Seq<char>) -> Result<u32, NumberError>
    decreases s.len(),
{
    if s.len() == 0 {
        Ok(0)
    } else {
        match digits_value(s.drop_last()) {
            Err(e) => Err(e),
            Ok(v) => if !('0' <= s.last() <= '9') {
                Err(NumberError::InvalidDigit)
            } else if v * 10 + (s.last() as int - '0' as int) > u32::MAX {
                Err(NumberError::TooLarge)
            } else {
                Ok((v * 10 + (s.last() as int - '0' as int)) as u32)
            },
        }
    }
}

/// The number that a text stands for: decimal digits, behind a plus sign or
/// not.
pub open spec fn u32_value(s: Seq<char>) -> Result<u32, NumberError> {
    if s.len() == 0 {
        Err(NumberError::Empty)
    } else if s == seq!['+'] {
        Err(NumberError::InvalidDigit)
    } else if s[0] == '+' {
        digits_value(s.skip(1))
    } else {
        digits_value(s)
    }
}

/// Reads a number.
pub fn parse_u32(s: &Vec<char>) -> (r: Result<u32, NumberError>)
    ensures
        r == u32_value(s@),
{
    let n = s.len();
    if n == 0 {
        return Err(NumberError::Empty);
    }
    let start: usize = if s[0] == '+' {
        1
    } else {
        0
    };
    if start == n {
        assert(s@ =~= seq!['+']);
        return Err(NumberError::InvalidDigit);
    }
    let ghost digits = s@.skip(start as int);
    assert(s@.skip(0) =~= s@);
    assert(s@ != seq!['+']);
    let mut value: u32 = 0;
    let mut failed: Option<NumberError> = None;
    assert(digits.take(0) =~= Seq::<char>::empty());
    for i in start..n
        invariant
            n == s@.len(),
            start <= n,
            digits == s@.skip(start as int),
            digits_value(digits.take(i - start)) == (match failed {
                Some(e) => Err(e),
                None => Ok(value),
            }),
    {
        assert(digits.take(i + 1 - start).drop_last() =~= digits.take(i - start));
        if failed.is_none() {
            let c = s[i];
            if c < '0' || c > '9' {
                failed = Some(NumberError::InvalidDigit);
            } else {
                let next: u64 = value as u64 * 10 + (c as u64 - '0' as u64);
                if next > u32::MAX as u64 {
                    failed = Some(NumberError::TooLarge);
                } else {
                    value = next as u32;
                }
            }
        }
    }
    assert(digits.take(n - start) =~= digits);
    match failed {
        Some(e) => Err(e),
        None => Ok(value),
    }
}

/// The parts one behind the other, with the separator between them.
pub open spec fn joined(parts: Seq<Seq<char>>, separator: Seq<char>) -> Seq<char>
    decreases parts.len(),
{
    if parts.len() == 0 {
        Seq::empty()
    } else if parts.len() == 1 {
        parts[0]
    } else {
        joined(parts.drop_last(), separator) + separator + parts.last()
    }
}

/// The contents of each string.
pub open spec fn contents(strings: Seq<String>) -> Seq<Seq<char>> {
    Seq::new(strings.len(), |i: int| strings[i]@)
}

/// Joins the strings, with the separator between them.
pub fn join(strings: &Vec<String>, separator: &str) -> (r: String)
    ensures
        r@ == joined(contents(strings@), separator@),
{
    let ghost all = contents(strings@);
    let mut r = String::new();
    assert(all.take(0) =~= Seq::<Seq<char>>::empty());
    for i in 0..strings.len()
        invariant
            all == contents(strings@),
            r@ == joined(all.take(i as int), separator@),
    {
        assert(all.take(i + 1).drop_last() =~= all.take(i as int));
        assert(all.take(i + 1).last() == strings@[i as int]@);
        if i > 0 {
            r.append(separator);
        }
        r.append(strings[i].as_str());
        assert(r@ =~= joined(all.take(i + 1), separator@));
    }
    assert(all.take(all.len() as int) =~= all);
    r
}

/// Whether one of the strings holds the given text.
pub fn contains(strings: &Vec<String>, text: &str) -> (r: bool)
    ensures
        r == contents(strings@).contains(text@),
{
    for i in 0..strings.len()
        invariant
            forall|j: int| 0 <= j < i ==> (#[trigger] contents(strings@)[j]) != text@,
    {
        if same_text(strings[i].as_str(), text) {
            assert(contents(strings@)[i as int] == text@);
            return true;
        }
    }
    false
}

/// A number is written digit by digit: one of a single digit as that digit, and
/// ten times a number and a digit more as that number with the digit behind it.
pub proof fn numbers_are_written_digit_by_digit(n: nat, d: nat)
    requires
        d < 10,
    ensures
        decimal(d).len() == 1,
        decimal(d)[0] as int == '0' as int + d,
        n > 0 ==> decimal(10 * n + d) == decimal(n) + decimal(d),
        n > 0 ==> decimal(n)[0] != '0',
        decimal(n).len() > 0,
        forall|i: int| 0 <= i < decimal(n).len() ==> '0' <= (#[trigger] decimal(n)[i]) <= '9',
    decreases n,
{
    if n > 0 {
        assert((10 * n + d) / 10 == n);
        assert((10 * n + d) % 10 == d);
        assert(decimal(10 * n + d) =~= decimal(n) + decimal(d));
        if n >= 10 {
            numbers_are_written_digit_by_digit(n / 10, d);
        }
    }
}

/// A negative number is written as its opposite behind a minus sign.
pub proof fn negative_numbers_have_a_sign(n: int)
    requires
        n >= 0,
    ensures
        signed_decimal(n) == decimal(n as nat),
        n > 0 ==> signed_decimal(-n) == seq!['-'] + signed_decimal(n),
{
}

/// The number that a row of digits stands for, however long it is.
pub open spec fn number(s: Seq<char>) -> int
    decreases s.len(),
{
    if s.len() == 0 {
        0
    } else {
        10 * number(s.drop_last()) + (s.last() as int - '0' as int)
    }
}

/// Every character is a decimal digit.
pub open spec fn all_digits(s: Seq<char>) -> bool {
    forall|i: int| 0 <= i < s.len() ==> '0' <= (#[trigger] s[i]) <= '9'
}

proof fn lemma_number_of_digits(s: Seq<char>)
    requires
        all_digits(s),
    ensures
        number(s) >= 0,
        digits_value(s) == (if number(s) <= u32::MAX {
            Ok::<u32, NumberError>(number(s) as u32)
        } else {
            Err(NumberError::TooLarge)
        }),
    decreases s.len(),
{
    if s.len() > 0 {
        let before = s.drop_last();
        assert forall|i: int| 0 <= i < before.len() implies '0' <= (#[trigger] before[i]) <= '9' by {
            assert(before[i] == s[i]);
        }
        lemma_number_of_digits(before);
        assert(s[s.len() - 1] == s.last());
    }
}

proof fn lemma_first_wrong(s: Seq<char>, i: int)
    requires
        0 <= i < s.len(),
        digits_value(s.take(i)) is Ok,
        !('0' <= s[i] <= '9'),
    ensures
        digits_value(s) == Err::<u32, NumberError>(NumberError::InvalidDigit),
    decreases s.len(),
{
    if i == s.len() - 1 {
        assert(s.drop_last() =~= s.take(i));
    } else {
        assert(s.drop_last().take(i) =~= s.take(i));
        lemma_first_wrong(s.drop_last(), i);
    }
}

/// A row of digits is read as the number it stands for, as long as that fits,
/// with a plus sign before it or not. Nothing is no number, nor is a sign alone,
/// nor a row that something else than a digit breaks off.
pub proof fn numbers_are_read(s: Seq<char>, i: int)
    ensures
        u32_value(Seq::empty()) == Err::<u32, NumberError>(NumberError::Empty),
        u32_value(seq!['+']) == Err::<u32, NumberError>(NumberError::InvalidDigit),
        s.len() > 0 && all_digits(s) ==> u32_value(s) == (if number(s) <= u32::MAX {
            Ok::<u32, NumberError>(number(s) as u32)
        } else {
            Err(NumberError::TooLarge)
        }),
        s.len() > 0 && all_digits(s) ==> u32_value(seq!['+'] + s) == u32_value(s),
        0 <= i < s.len() && all_digits(s.take(i)) && number(s.take(i)) <= u32::MAX && !('0' <= s[i] <= '9') && (i > 0
            || s[0] != '+') ==> u32_value(s) == Err::<u32, NumberError>(NumberError::InvalidDigit),
{
    if s.len() > 0 && all_digits(s) {
        lemma_number_of_digits(s);
        assert('0' <= s[0] <= '9');
        assert((seq!['+'] + s).skip(1) =~= s);
        assert((seq!['+'] + s).len() > 1);
    }
    if 0 <= i < s.len() && all_digits(s.take(i)) && number(s.take(i)) <= u32::MAX && !('0' <= s[i] <= '9') && (i > 0
        || s[0] != '+') {
        lemma_number_of_digits(s.take(i));
        lemma_first_wrong(s, i);
        if i > 0 {
            assert(s.take(i)[0] == s[0]);
        }
    }
}

/// What was written is read back.
pub proof fn numbers_read_back(n: u32)
    ensures
        u32_value(decimal(n as nat)) == Ok::<u32, NumberError>(n),
{
    numbers_are_written_digit_by_digit(n as nat, 0);
    lemma_number_of_decimal(n as nat);
    numbers_are_read(decimal(n as nat), 0);
}

proof fn lemma_number_of_decimal(n: nat)
    ensures
        number(decimal(n)) == n,
    decreases n,
{
    reveal_with_fuel(number, 2);
    if n >= 10 {
        lemma_number_of_decimal(n / 10);
        assert(decimal(n).drop_last() =~= decimal(n / 10));
    } else {
        assert(decimal(n).drop_last() =~= Seq::<char>::empty());
    }
}

/// Of the characters in ASCII, white space is the blank and what moves on a line
/// or a page; nothing that is printed is.
pub proof fn blanks_are_white_space(c: char)
    requires
        (c as u32) < 128,
    ensures
        is_white_space(c) <==> c == ' ' || 9 <= c as u32 <= 13,
{
}

/// Trimming takes off white space, at both ends, and all of it: what is left is
/// the stretch from the first to the last character that is none.
pub proof fn only_outer_white_space_is_trimmed(s: Seq<char>) -> (r: (int, int))
    ensures
        0 <= r.0 <= r.1 <= s.len(),
        trimmed(s) == s.subrange(r.0, r.1),
        forall|i: int| 0 <= i < s.len() && (i < r.0 || i >= r.1) ==> is_white_space(#[trigger] s[i]),
        r.0 < r.1 ==> !is_white_space(s[r.0]) && !is_white_space(s[r.1 - 1]),
{
    let lo = lemma_trim_start(s);
    let rest = s.skip(lo);
    let hi = lo + lemma_trim_end(rest);
    assert(trimmed(s) =~= s.subrange(lo, hi));
    assert forall|i: int| 0 <= i < s.len() && (i < lo || i >= hi) implies is_white_space(#[trigger] s[i]) by {
        if i >= hi {
            assert(rest[i - lo] == s[i]);
        }
    }
    if lo < hi {
        assert(rest[hi - lo - 1] == s[hi - 1]);
    }
    (lo, hi)
}

proof fn lemma_trim_start(s: Seq<char>) -> (lo: int)
    ensures
        0 <= lo <= s.len(),
        trim_start(s) == s.skip(lo),
        forall|i: int| 0 <= i < lo ==> is_white_space(#[trigger] s[i]),
        lo < s.len() ==> !is_white_space(s[lo]),
    decreases s.len(),
{
    if s.len() > 0 && is_white_space(s[0]) {
        let lo = lemma_trim_start(s.skip(1));
        assert(s.skip(1).skip(lo) =~= s.skip(lo + 1));
        assert forall|i: int| 0 <= i < lo + 1 implies is_white_space(#[trigger] s[i]) by {
            if i > 0 {
                assert(s.skip(1)[i - 1] == s[i]);
            }
        }
        lo + 1
    } else {
        assert(s.skip(0) =~= s);
        0
    }
}

proof fn lemma_trim_end(s: Seq<char>) -> (hi: int)
    ensures
        0 <= hi <= s.len(),
        trim_end(s) == s.take(hi),
        forall|i: int| hi <= i < s.len() ==> is_white_space(#[trigger] s[i]),
        0 < hi ==> !is_white_space(s[hi - 1]),
    decreases s.len(),
{
    if s.len() > 0 && is_white_space(s.last()) {
        let hi = lemma_trim_end(s.drop_last());
        assert(s.drop_last().take(hi) =~= s.take(hi));
        assert forall|i: int| hi <= i < s.len() implies is_white_space(#[trigger] s[i]) by {
            if i < s.len() - 1 {
                assert(s.drop_last()[i] == s[i]);
            }
        }
        hi
    } else {
        assert(s.take(s.len() as int) =~= s);
        s.len() as int
    }
}

/// Joining sets the separator between parts and nowhere else: one part is joined
/// to itself, and two lists of parts to what each is joined to, with the
/// separator between.
pub proof fn joined_parts_follow_one_another(a: Seq<Seq<char>>, b: Seq<Seq<char>>, part: Seq<char>, separator: Seq<char>)
    ensures
        joined(Seq::empty(), separator) == Seq::<char>::empty(),
        joined(seq![part], separator) == part,
        a.len() > 0 && b.len() > 0 ==> joined(a + b, separator) == joined(a, separator) + separator + joined(
            b,
            separator,
        ),
    decreases b.len(),
{
    if a.len() > 0 && b.len() > 0 {
        let all = a + b;
        if b.len() == 1 {
            assert(all.drop_last() =~= a);
            assert(all.last() == b[0]);
        } else {
            assert(all.drop_last() =~= a + b.drop_last());
            assert(all.last() == b.last());
            joined_parts_follow_one_another(a, b.drop_last(), part, separator);
            assert(joined(all, separator) =~= joined(a, separator) + separator + joined(b, separator));
        }
    }
}

/// Splitting leaves nothing out and cuts at every separator: the parts, joined by
/// it, are the text, and none holds one.
pub proof fn parts_make_up_the_text(s: Seq<char>, separator: char)
    ensures
        parts(s, separator).len() > 0,
        joined(parts(s, separator), seq![separator]) == s,
        forall|i: int| 0 <= i < parts(s, separator).len() ==> !(#[trigger] parts(s, separator)[i]).contains(separator),
    decreases s.len(),
{
    let all = parts(s, separator);
    let sep = seq![separator];
    if s.len() == 0 {
        assert(joined(all, sep) =~= s);
    } else {
        let before = parts(s.drop_last(), separator);
        parts_make_up_the_text(s.drop_last(), separator);
        if s.last() == separator {
            joined_parts_follow_one_another(before, seq![Seq::<char>::empty()], Seq::empty(), sep);
            assert(all =~= before + seq![Seq::<char>::empty()]);
            assert(joined(all, sep) =~= s.drop_last() + sep + Seq::<char>::empty());
            assert(joined(all, sep) =~= s);
            assert forall|i: int| 0 <= i < all.len() implies !(#[trigger] all[i]).contains(separator) by {
                if i < before.len() {
                    assert(all[i] == before[i]);
                }
            }
        } else {
            let last = before.last().push(s.last());
            assert(all.last() == last);
            assert(all.drop_last() =~= before.drop_last());
            assert(before[before.len() - 1] == before.last());
            if before.len() == 1 {
                assert(joined(all, sep) =~= s);
            } else {
                assert(joined(before, sep) == joined(before.drop_last(), sep) + sep + before.last());
                assert(joined(all, sep) =~= joined(before, sep).push(s.last()));
                assert(joined(all, sep) =~= s);
            }
            assert forall|i: int| 0 <= i < all.len() implies !(#[trigger] all[i]).contains(separator) by {
                if i < before.len() - 1 {
                    assert(all[i] == before[i]);
                } else {
                    assert(all[i] == last);
                    if last.contains(separator) {
                        let j = choose|j: int| 0 <= j < last.len() && last[j] == separator;
                        assert(j < before.last().len());
                        assert(before.last()[j] == separator);
                        assert(before.last().contains(separator));
                    }
                }
            }
        }
    }
}

/// What was joined is split again, where no part holds the separator.
pub proof fn joined_parts_are_split_again(all: Seq<Seq<char>>, separator: char)
    requires
        all.len() > 0,
        forall|i: int| 0 <= i < all.len() ==> !(#[trigger] all[i]).contains(separator),
    ensures
        parts(joined(all, seq![separator]), separator) == all,
    decreases all.len(),
{
    let sep = seq![separator];
    if all.len() == 1 {
        lemma_one_part(Seq::empty(), all[0], separator);
        assert(Seq::<char>::empty() + all[0] =~= all[0]);
        assert(all =~= parts(Seq::empty(), separator).drop_last().push(Seq::<char>::empty() + all[0]));
    } else {
        let before = all.drop_last();
        assert forall|i: int| 0 <= i < before.len() implies !(#[trigger] before[i]).contains(separator) by {
            assert(before[i] == all[i]);
        }
        joined_parts_are_split_again(before, separator);
        let start = joined(before, sep) + sep;
        assert(start.drop_last() =~= joined(before, sep));
        assert(parts(start, separator) == before.push(Seq::<char>::empty()));
        assert(all[all.len() - 1] == all.last());
        lemma_one_part(start, all.last(), separator);
        assert(Seq::<char>::empty() + all.last() =~= all.last());
        assert(before.push(Seq::<char>::empty()).drop_last() =~= before);
        assert(all =~= before.push(all.last()));
    }
}

proof fn lemma_one_part(start: Seq<char>, part: Seq<char>, separator: char)
    requires
        !part.contains(separator),
    ensures
        parts(start, separator).len() > 0,
        parts(start + part, separator) == parts(start, separator).drop_last().push(
            parts(start, separator).last() + part,
        ),
    decreases part.len(),
{
    parts_make_up_the_text(start, separator);
    let before = parts(start, separator);
    if part.len() == 0 {
        assert(start + part =~= start);
        assert(before.last() + part =~= before.last());
        assert(before =~= before.drop_last().push(before.last()));
    } else {
        let less = part.drop_last();
        assert(!less.contains(separator)) by {
            if less.contains(separator) {
                let j = choose|j: int| 0 <= j < less.len() && less[j] == separator;
                assert(part[j] == separator);
            }
        }
        lemma_one_part(start, less, separator);
        assert((start + part).drop_last() =~= start + less);
        assert((start + part).last() == part.last());
        assert(part[part.len() - 1] == part.last());
        let mid = parts(start + less, separator);
        assert(mid.drop_last() =~= before.drop_last());
        assert(mid.last() == before.last() + less);
        assert((before.last() + less).push(part.last()) =~= before.last() + part);
    }
}

/// Different numbers are written differently.
pub proof fn numbers_are_told_apart(a: nat, b: nat)
    requires
        decimal(a) == decimal(b),
    ensures
        a == b,
{
    lemma_number_of_decimal(a);
    lemma_number_of_decimal(b);
}

/// A number that is put behind a text is read back from there, and the text before it
/// stays.
pub proof fn numbers_are_put_behind(s: &mut String, n: u64)
    requires
        call_ensures(push_decimal, (s, n), ()),
        n <= u32::MAX,
    ensures
        final(s)@.take(old(s)@.len() as int) == old(s)@,
        u32_value(final(s)@.skip(old(s)@.len() as int)) == Ok::<u32, NumberError>(n as u32),
{
    let k = old(s)@.len() as int;
    assert(final(s)@.take(k) =~= old(s)@);
    assert(final(s)@.skip(k) =~= decimal(n as nat));
    numbers_read_back(n as u32);
}

/// Texts that are joined with a character that none of them holds are parted again by
/// it, every one of them.
pub proof fn joined_texts_are_parted(strings: &Vec<String>, separator: &str, c: char, r: String)
    requires
        call_ensures(join, (strings, separator), r),
        separator@ == seq![c],
        strings@.len() > 0,
        forall|i: int| 0 <= i < strings@.len() ==> !(#[trigger] strings@[i])@.contains(c),
    ensures
        parts(r@, c) == contents(strings@),
{
    let all = contents(strings@);
    assert forall|i: int| 0 <= i < all.len() implies !(#[trigger] all[i]).contains(c) by {
        assert(!strings@[i]@.contains(c));
    }
    joined_parts_are_split_again(all, c);
}

/// A text is among others exactly when one of them is the same.
pub proof fn texts_are_found(strings: &Vec<String>, text: &str, r: bool)
    requires
        call_ensures(contains, (strings, text), r),
    ensures
        r <==> exists|i: int| 0 <= i < strings@.len() && (#[trigger] strings@[i])@ == text@,
{
    let all = contents(strings@);
    if all.contains(text@) {
        let i = choose|i: int| 0 <= i < all.len() && all[i] == text@;
        assert(strings@[i]@ == text@);
    }
    if exists|i: int| 0 <= i < strings@.len() && (#[trigger] strings@[i])@ == text@ {
        let i = choose|i: int| 0 <= i < strings@.len() && (#[trigger] strings@[i])@ == text@;
        assert(all[i] == text@);
    }
}

proof fn lemma_error_stays(s: Seq<char>, i: int)
    requires
        0 <= i <= s.len(),
        digits_value(s.take(i)) is Err,
    ensures
        digits_value(s) == digits_value(s.take(i)),
    decreases s.len(),
{
    if i < s.len() {
        assert(s.drop_last().take(i) =~= s.take(i));
        lemma_error_stays(s.drop_last(), i);
    } else {
        assert(s.take(i) =~= s);
    }
}

/// A number is read from the left: one that grows too large is too large, whatever
/// stands behind it. A plus sign changes nothing, but only one is read.
pub proof fn first_mistake_decides(s: Seq<char>, i: int)
    requires
        0 <= i < s.len(),
    ensures
        all_digits(s.take(i + 1)) && number(s.take(i + 1)) > u32::MAX ==> u32_value(s) == Err::<u32, NumberError>(
            NumberError::TooLarge,
        ),
        s[0] != '+' ==> u32_value(seq!['+'] + s) == u32_value(s),
        s[0] == '+' ==> u32_value(seq!['+'] + s) == Err::<u32, NumberError>(NumberError::InvalidDigit),
{
    let signed = seq!['+'] + s;
    assert(signed.skip(1) =~= s);
    assert(signed.len() > 1);
    if all_digits(s.take(i + 1)) && number(s.take(i + 1)) > u32::MAX {
        lemma_number_of_digits(s.take(i + 1));
        lemma_error_stays(s, i + 1);
        assert(s.take(i + 1)[0] == s[0]);
        assert('0' <= s[0] <= '9');
    }
    if s[0] == '+' {
        assert(s.take(0) =~= Seq::<char>::empty());
        lemma_first_wrong(s, 0);
    }
}

/// What is left after trimming is one stretch: any stretch with nothing but white
/// space around it and none at its ends.
pub proof fn trimming_leaves_one_stretch(s: Seq<char>, lo: int, hi: int)
    requires
        0 <= lo <= hi <= s.len(),
        forall|i: int| 0 <= i < s.len() && (i < lo || i >= hi) ==> is_white_space(#[trigger] s[i]),
        lo < hi ==> !is_white_space(s[lo]) && !is_white_space(s[hi - 1]),
    ensures
        trimmed(s) == s.subrange(lo, hi),
{
    let (a, b) = only_outer_white_space_is_trimmed(s);
    if lo < hi {
        assert(a <= lo && lo < b);
        assert(a <= hi - 1 && hi - 1 < b);
        assert(lo <= a && b - 1 < hi);
    } else if a < b {
        assert(is_white_space(s[a]));
    }
    assert(s.subrange(a, b) =~= s.subrange(lo, hi));
}

/// A number with a sign is written behind the text, with the sign before its digits
/// where it is negative.
pub proof fn signed_numbers_are_put_behind(s: &mut String, n: i64)
    requires
        call_ensures(push_signed, (s, n), ()),
    ensures
        final(s)@.take(old(s)@.len() as int) == old(s)@,
        n >= 0 ==> final(s)@.skip(old(s)@.len() as int) == decimal(n as nat),
        n < 0 ==> final(s)@.skip(old(s)@.len() as int) == seq!['-'] + decimal((0 - n) as nat),
{
    let k = old(s)@.len() as int;
    assert(final(s)@.take(k) =~= old(s)@);
    assert(final(s)@.skip(k) =~= signed_decimal(n as int));
    negative_numbers_have_a_sign(if n < 0 {
        0 - n
    } else {
        n as int
    });
}

/// A row of digits is read as the number it stands for, of any length.
pub proof fn digits_are_read(s: &Vec<char>, r: Result<u32, NumberError>)
    requires
        call_ensures(parse_u32, (s,), r),
        s@.len() > 0,
        all_digits(s@),
    ensures
        r is Ok <==> number(s@) <= u32::MAX,
        r matches Ok(n) ==> n == number(s@),
        r matches Err(e) ==> e == NumberError::TooLarge,
{
    lemma_number_of_digits(s@);
    numbers_are_read(s@, 0);
}

/// Trimming takes off all white space before and behind, and nothing else.
pub proof fn white_space_is_taken_off(s: &Vec<char>, r: Vec<char>, lo: int, hi: int)
    requires
        call_ensures(trim, (s,), r),
        0 <= lo <= hi <= s@.len(),
        forall|i: int| 0 <= i < s@.len() && (i < lo || i >= hi) ==> is_white_space(#[trigger] s@[i]),
        lo < hi ==> !is_white_space(s@[lo]) && !is_white_space(s@[hi - 1]),
    ensures
        r@ == s@.subrange(lo, hi),
{
    trimming_leaves_one_stretch(s@, lo, hi);
}

/// A text is split at every separator, and joined with it again it is the text.
pub proof fn texts_are_split_at_every_separator(s: &Vec<char>, separator: char, r: Vec<Vec<char>>, i: int)
    requires
        call_ensures(split, (s, separator), r),
    ensures
        r@.len() > 0,
        joined(texts(r@), seq![separator]) == s@,
        0 <= i < r@.len() ==> !r@[i]@.contains(separator),
{
    parts_make_up_the_text(s@, separator);
    assert(texts(r@).len() == r@.len());
    if 0 <= i < r@.len() {
        assert(texts(r@)[i] == r@[i]@);
    }
}

/// The first of a character is found, wherever it is.
pub proof fn first_character_is_found(s: &Vec<char>, c: char, r: Option<usize>, k: int)
    requires
        call_ensures(find, (s, c), r),
    ensures
        r is None ==> !s@.contains(c),
        r matches Some(i) ==> i < s@.len() && s@[i as int] == c && (0 <= k < i ==> s@[k] != c),
{
    s@.index_of_first_ensures(c);
}

/// Texts are the same exactly when they have the same characters, and a stretch of one
/// has those of its places.
pub proof fn texts_are_compared(a: &str, b: &str, same: bool, s: &Vec<char>, lo: usize, hi: usize, part: Vec<char>, i: int)
    requires
        call_ensures(same_text, (a, b), same),
        call_ensures(copy_part, (s, lo, hi), part),
        lo <= hi <= s@.len(),
    ensures
        same ==> a@.len() == b@.len() && (0 <= i < a@.len() ==> a@[i] == b@[i]),
        !same ==> a@.len() != b@.len() || exists|k: int| 0 <= k < a@.len() && #[trigger] a@[k] != b@[k],
        part@.len() == hi - lo,
        0 <= i < hi - lo ==> part@[i] == s@[lo + i],
{
    if !same && a@.len() == b@.len() && forall|k: int| 0 <= k < a@.len() ==> #[trigger] a@[k] == b@[k] {
        assert(a@ =~= b@);
    }
}

}
