//! Characters, decimal numbers and separated fields: the building blocks of
//! the record lines.

use vstd::prelude::*;
use vstd::std_specs::iter::IteratorSpec;

verus! {

/// `c` is one of the ten ASCII digits.
pub open spec fn is_digit(c: char) -> bool {
    '0' <= c && c <= '9'
}

/// The number that the ASCII digit `c` stands for.
pub open spec fn digit_value(c: char) -> int {
    c as int - 48
}

/// The ASCII digit for `d`, where `0 <= d <= 9`.
pub open spec fn digit_char(d: int) -> char {
    ((d + 48) as u8) as char
}

/// Every character of `s` is an ASCII digit.
pub open spec fn all_digits(s: Seq<char>) -> bool {
    forall|i: int| 0 <= i < s.len() ==> is_digit(#[trigger] s[i])
}

/// The value of a run of digits read in base ten; the empty run is worth 0.
pub open spec fn digits_value(s: Seq<char>) -> int
    decreases s.len(),
{
    if s.len() == 0 {
        0
    } else {
        digits_value(s.drop_last()) * 10 + digit_value(s.last())
    }
}

/// The digits of `s` once an optional leading sign is taken off.
pub open spec fn number_body(s: Seq<char>) -> Seq<char> {
    if s.len() > 0 && (s[0] == '-' || s[0] == '+') {
        s.skip(1)
    } else {
        s
    }
}

/// The 64-bit signed integer that `s` denotes in base ten, if any: an optional
/// `+` or `-`, then one or more ASCII digits and nothing else, with a value
/// that fits in 64 bits. Leading zeros are accepted.
pub open spec fn number_value(s: Seq<char>) -> Option<int> {
    let body = number_body(s);
    let magnitude = digits_value(body);
    let value = if s.len() > 0 && s[0] == '-' {
        -magnitude
    } else {
        magnitude
    };
    if body.len() > 0 && all_digits(body) && i64::MIN <= value <= i64::MAX {
        Some(value)
    } else {
        None
    }
}

/// The digits of `n` in base ten, without leading zeros.
pub open spec fn decimal_digits(n: nat) -> Seq<char>
    decreases n,
{
    if n < 10 {
        seq![digit_char(n as int)]
    } else {
        decimal_digits(n / 10).push(digit_char((n % 10) as int))
    }
}

/// The shortest base-ten text of `n`: a `-` for a negative number, then its
/// digits.
pub open spec fn decimal(n: int) -> Seq<char> {
    if n < 0 {
        seq!['-'] + decimal_digits((-n) as nat)
    } else {
        decimal_digits(n as nat)
    }
}

/// `s` is the text that `decimal` writes for the number it denotes: no `+`,
/// no leading zero but for `0` itself, and no `-0`.
pub open spec fn is_canonical_number(s: Seq<char>) -> bool {
    let body = number_body(s);
    &&& number_value(s) is Some
    &&& s.len() > 0 && s[0] != '+'
    &&& body.len() > 1 ==> body[0] != '0'
    &&& s[0] == '-' ==> body[0] != '0'
}

/// A run of digits never has a negative value.
pub proof fn lemma_digits_value_nonnegative(s: Seq<char>)
    requires
        all_digits(s),
    ensures
        digits_value(s) >= 0,
    decreases s.len(),
{
    if s.len() > 0 {
        lemma_digits_value_nonnegative(s.drop_last());
    }
}

/// Reading more digits never makes the value smaller.
pub proof fn lemma_digits_value_grows(s: Seq<char>, k: int)
    requires
        all_digits(s),
        0 <= k <= s.len(),
    ensures
        digits_value(s.take(k)) <= digits_value(s),
    decreases s.len(),
{
    if k == s.len() {
        assert(s.take(k) =~= s);
    } else {
        let shorter = s.drop_last();
        assert(shorter.take(k) =~= s.take(k));
        lemma_digits_value_grows(shorter, k);
        lemma_digits_value_nonnegative(shorter);
    }
}

/// The digit written for a number below ten stands for that number, and the
/// other way round.
pub proof fn lemma_digit_char(d: int, c: char)
    ensures
        0 <= d <= 9 ==> is_digit(digit_char(d)) && digit_value(digit_char(d)) == d,
        is_digit(c) ==> 0 <= digit_value(c) <= 9 && digit_char(digit_value(c)) == c,
{
}

/// The digits written for a number are digits, stand for the number, and do
/// not begin with a zero unless the number is zero.
pub proof fn lemma_decimal_digits(n: nat)
    ensures
        decimal_digits(n).len() >= 1,
        all_digits(decimal_digits(n)),
        digits_value(decimal_digits(n)) == n,
        n > 0 ==> decimal_digits(n)[0] != '0',
        decimal_digits(n).len() > 1 ==> decimal_digits(n)[0] != '0',
    decreases n,
{
    let s = decimal_digits(n);
    if n < 10 {
        lemma_digit_char(n as int, '0');
        assert(s.drop_last() =~= Seq::<char>::empty());
        assert(digits_value(s.drop_last()) == 0);
    } else {
        let shorter = decimal_digits(n / 10);
        lemma_decimal_digits(n / 10);
        lemma_digit_char((n % 10) as int, '0');
        assert(s.drop_last() =~= shorter);
        assert(s[0] == shorter[0]);
        assert forall|i: int| 0 <= i < s.len() implies is_digit(#[trigger] s[i]) by {
            if i < shorter.len() {
                assert(s[i] == shorter[i]);
            }
        }
    }
}

/// A run of digits that does not begin with a zero is worth at least one.
pub proof fn lemma_digits_value_positive(s: Seq<char>)
    requires
        all_digits(s),
        s.len() >= 1,
        s[0] != '0',
    ensures
        digits_value(s) >= 1,
    decreases s.len(),
{
    lemma_digit_char(0, s.last());
    if s.len() > 1 {
        let shorter = s.drop_last();
        assert(shorter[0] == s[0]);
        lemma_digits_value_positive(shorter);
    } else {
        assert(s.drop_last() =~= Seq::<char>::empty());
        assert(digits_value(s.drop_last()) == 0);
        lemma_digit_char(0, s[0]);
    }
}

/// A run of digits without a needless leading zero is what is written for
/// its value.
pub proof fn lemma_digits_are_decimal(s: Seq<char>)
    requires
        all_digits(s),
        s.len() >= 1,
        s.len() > 1 ==> s[0] != '0',
    ensures
        digits_value(s) >= 0,
        decimal_digits(digits_value(s) as nat) == s,
    decreases s.len(),
{
    lemma_digits_value_nonnegative(s);
    lemma_digit_char(0, s.last());
    let shorter = s.drop_last();
    if s.len() == 1 {
        assert(shorter =~= Seq::<char>::empty());
        assert(digits_value(shorter) == 0);
        assert(decimal_digits(digits_value(s) as nat) =~= s);
    } else {
        assert(shorter[0] == s[0]);
        lemma_digits_value_positive(shorter);
        lemma_digits_are_decimal(shorter);
        let v = digits_value(s);
        assert(v / 10 == digits_value(shorter));
        assert(v % 10 == digit_value(s.last()));
        assert(decimal_digits(v as nat) =~= s);
    }
}

/// What is written for a 64-bit number reads back as that number, and is
/// canonical.
pub proof fn lemma_decimal_is_read_back(n: int)
    requires
        i64::MIN <= n <= i64::MAX,
    ensures
        number_value(decimal(n)) == Some(n),
        is_canonical_number(decimal(n)),
{
    let s = decimal(n);
    if n < 0 {
        let digits = decimal_digits((-n) as nat);
        lemma_decimal_digits((-n) as nat);
        assert(s[0] == '-');
        assert(number_body(s) =~= digits);
    } else {
        lemma_decimal_digits(n as nat);
        lemma_digit_char(0, s[0]);
        assert(is_digit(s[0]));
        assert(number_body(s) =~= s);
    }
}

/// A canonical number is what is written for its value.
pub proof fn lemma_canonical_is_written_back(s: Seq<char>)
    requires
        is_canonical_number(s),
    ensures
        decimal(number_value(s)->0) == s,
{
    let body = number_body(s);
    if s[0] == '-' {
        lemma_digits_value_positive(body);
        lemma_digits_are_decimal(body);
        assert(seq!['-'] + body =~= s);
    } else {
        lemma_digits_are_decimal(body);
    }
}

/// What is written for a number holds digits and at most a leading `-`: no
/// comma, no line feed.
pub proof fn lemma_decimal_is_plain(n: int)
    ensures
        free_of(decimal(n), ','),
        free_of(decimal(n), '\n'),
        decimal(n).len() >= 1,
{
    let s = decimal(n);
    if n < 0 {
        let digits = decimal_digits((-n) as nat);
        lemma_decimal_digits((-n) as nat);
        assert forall|i: int| 0 <= i < s.len() implies #[trigger] s[i] != ',' && s[i] != '\n' by {
            if i > 0 {
                assert(s[i] == digits[i - 1]);
                assert(is_digit(digits[i - 1]));
            }
        }
    } else {
        lemma_decimal_digits(n as nat);
        assert forall|i: int| 0 <= i < s.len() implies #[trigger] s[i] != ',' && s[i] != '\n' by {
            assert(is_digit(s[i]));
        }
    }
}

/// How many characters of `s` come before its first `sep`: all of them if it
/// holds none.
pub open spec fn run_len(s: Seq<char>, sep: char) -> nat
    decreases s.len(),
{
    if s.len() == 0 || s[0] == sep {
        0
    } else {
        1 + run_len(s.skip(1), sep)
    }
}

/// The pieces of `s` between occurrences of `sep`. There is always at least
/// one piece, and a piece may be empty.
pub open spec fn split(s: Seq<char>, sep: char) -> Seq<Seq<char>>
    decreases s.len(),
{
    let n = run_len(s, sep) as int;
    if n >= s.len() {
        seq![s]
    } else {
        seq![s.take(n)] + split(s.skip(n + 1), sep)
    }
}

/// The pieces `parts` written out with `sep` between them.
pub open spec fn join(parts: Seq<Seq<char>>, sep: char) -> Seq<char>
    decreases parts.len(),
{
    if parts.len() == 0 {
        Seq::empty()
    } else if parts.len() == 1 {
        parts[0]
    } else {
        parts[0] + seq![sep] + join(parts.skip(1), sep)
    }
}

/// No character of `s` is `sep`.
pub open spec fn free_of(s: Seq<char>, sep: char) -> bool {
    forall|i: int| 0 <= i < s.len() ==> #[trigger] s[i] != sep
}

/// `run_len` is the position of the first `sep`.
pub proof fn lemma_run_len(s: Seq<char>, sep: char, k: int)
    requires
        0 <= k <= s.len(),
        forall|j: int| 0 <= j < k ==> #[trigger] s[j] != sep,
        k == s.len() || s[k] == sep,
    ensures
        run_len(s, sep) == k,
    decreases k,
{
    if k > 0 {
        let rest = s.skip(1);
        assert forall|j: int| 0 <= j < k - 1 implies #[trigger] rest[j] != sep by {
            assert(rest[j] == s[j + 1]);
        }
        lemma_run_len(rest, sep, k - 1);
    }
}

/// What `run_len` says of the characters it counts.
pub proof fn lemma_run_len_bounds(s: Seq<char>, sep: char)
    ensures
        run_len(s, sep) <= s.len(),
        free_of(s.take(run_len(s, sep) as int), sep),
        run_len(s, sep) < s.len() ==> s[run_len(s, sep) as int] == sep,
    decreases s.len(),
{
    if !(s.len() == 0 || s[0] == sep) {
        let rest = s.skip(1);
        lemma_run_len_bounds(rest, sep);
        let n = run_len(rest, sep) as int;
        assert forall|i: int| 0 <= i < n + 1 implies #[trigger] s.take(n + 1)[i] != sep by {
            if i > 0 {
                assert(rest.take(n)[i - 1] == s[i]);
            }
        }
    }
}

/// Splitting never yields a piece that holds the separator, and always
/// yields a piece.
pub proof fn lemma_split_pieces(s: Seq<char>, sep: char)
    ensures
        split(s, sep).len() >= 1,
        forall|i: int| 0 <= i < split(s, sep).len() ==> free_of(#[trigger] split(s, sep)[i], sep),
    decreases s.len(),
{
    lemma_run_len_bounds(s, sep);
    let n = run_len(s, sep) as int;
    if n >= s.len() {
        assert(s.take(n) =~= s);
    } else {
        lemma_split_pieces(s.skip(n + 1), sep);
    }
}

/// Joining the pieces of a split gives the text back.
pub proof fn lemma_join_split(s: Seq<char>, sep: char)
    ensures
        join(split(s, sep), sep) == s,
    decreases s.len(),
{
    lemma_run_len_bounds(s, sep);
    let n = run_len(s, sep) as int;
    if n < s.len() {
        let rest = s.skip(n + 1);
        lemma_join_split(rest, sep);
        lemma_split_pieces(rest, sep);
        let parts = split(s, sep);
        assert(parts.skip(1) =~= split(rest, sep));
        assert(s =~= s.take(n) + seq![sep] + rest);
    }
}

/// Splitting what was joined from separator-free pieces gives the pieces
/// back.
pub proof fn lemma_split_join(parts: Seq<Seq<char>>, sep: char)
    requires
        parts.len() >= 1,
        forall|i: int| 0 <= i < parts.len() ==> free_of(#[trigger] parts[i], sep),
    ensures
        split(join(parts, sep), sep) == parts,
    decreases parts.len(),
{
    let s = join(parts, sep);
    if parts.len() == 1 {
        lemma_run_len(s, sep, s.len() as int);
        assert(split(s, sep) =~= parts);
    } else {
        let head = parts[0];
        let tail = parts.skip(1);
        assert forall|i: int| 0 <= i < tail.len() implies free_of(#[trigger] tail[i], sep) by {
            assert(tail[i] == parts[i + 1]);
        }
        lemma_split_join(tail, sep);
        assert(s == head + seq![sep] + join(tail, sep));
        assert forall|j: int| 0 <= j < head.len() implies #[trigger] s[j] != sep by {
            assert(s[j] == head[j]);
        }
        lemma_run_len(s, sep, head.len() as int);
        assert(s.take(head.len() as int) =~= head);
        assert(s.skip(head.len() as int + 1) =~= join(tail, sep));
        assert(split(s, sep) =~= parts);
    }
}

/// The text `s` with every character in lower case, as the Unicode
/// standard defines it for whole strings.
pub uninterp spec fn lowercase(s: Seq<char>) -> Seq<char>;

/// Calls `str::to_lowercase` of the standard library. The contract gives its
/// result the name `lowercase`: the same text always has the same lower-case
/// form, and nothing more is claimed of it.
#[verifier::external_body]
pub(crate) fn to_lowercase(s: &str) -> (lower: String)
    ensures
        lower@ == lowercase(s@),
{
    s.to_lowercase()
}

/// The characters of a string slice, in order.
pub fn to_chars(s: &str) -> (chars: Vec<char>)
    ensures
        chars@ == s@,
{
    let mut chars: Vec<char> = Vec::new();
    let source = s.chars();
    for c in it: source
        invariant
            chars@ == it.seq().take(it.index() as int),
            it.seq() == s@,
    {
        chars.push(c);
    }
    chars
}

/// Reads `chars[from..to]` as a base-ten 64-bit signed integer.
pub fn parse_number(chars: &Vec<char>, from: usize, to: usize) -> (value: Option<i64>)
    requires
        from <= to <= chars.len(),
    ensures
        match value {
            Some(v) => number_value(chars@.subrange(from as int, to as int)) == Some(v as int),
            None => number_value(chars@.subrange(from as int, to as int)) is None,
        },
{
    let ghost s = chars@.subrange(from as int, to as int);
    if from == to {
        return None;
    }
    let negative = chars[from] == '-';
    let signed = negative || chars[from] == '+';
    let start: usize = if signed {
        from + 1
    } else {
        from
    };
    let ghost body = number_body(s);
    assert(body =~= chars@.subrange(start as int, to as int));
    if start == to {
        return None;
    }
    let mut total: i128 = 0;
    let mut i: usize = start;
    while i < to
        invariant
            start <= i <= to <= chars.len(),
            s == chars@.subrange(from as int, to as int),
            body == number_body(s),
            body == chars@.subrange(start as int, to as int),
            all_digits(body.take(i - start)),
            total == digits_value(body.take(i - start)),
            0 <= total <= 9223372036854775808,
        decreases to - i,
    {
        let c = chars[i];
        if !(c >= '0' && c <= '9') {
            assert(!is_digit(body[i - start]));
            return None;
        }
        let ghost longer = body.take(i - start + 1);
        assert(longer.drop_last() =~= body.take(i - start));
        assert(longer.last() == c);
        total = total * 10 + ((c as u8) - 48) as i128;
        i = i + 1;
        if total > 9223372036854775808 {
            proof {
                if all_digits(body) {
                    lemma_digits_value_grows(body, i - start);
                }
            }
            return None;
        }
    }
    assert(body.take(i - start) =~= body);
    if negative {
        Some((-total) as i64)
    } else if total <= 9223372036854775807 {
        Some(total as i64)
    } else {
        None
    }
}

/// The one-character text of the digit `d`.
fn digit_text(d: u8) -> (text: &'static str)
    requires
        d < 10,
    ensures
        text@ == seq![digit_char(d as int)],
{
    proof {
        reveal_strlit("0");
        reveal_strlit("1");
        reveal_strlit("2");
        reveal_strlit("3");
        reveal_strlit("4");
        reveal_strlit("5");
        reveal_strlit("6");
        reveal_strlit("7");
        reveal_strlit("8");
        reveal_strlit("9");
    }
    let text = match d {
        0 => "0",
        1 => "1",
        2 => "2",
        3 => "3",
        4 => "4",
        5 => "5",
        6 => "6",
        7 => "7",
        8 => "8",
        _ => "9",
    };
    assert(text@ =~= seq![digit_char(d as int)]);
    text
}

/// Appends the shortest base-ten text of `n` to `out`.
pub fn push_number(out: &mut String, n: i64)
    ensures
        final(out)@ == old(out)@ + decimal(n as int),
{
    let wide: i128 = n as i128;
    let magnitude: i128 = if wide < 0 {
        -wide
    } else {
        wide
    };
    if n < 0 {
        proof {
            reveal_strlit("-");
        }
        out.append("-");
    }
    let ghost prefix = out@;
    assert(prefix =~= old(out)@ + (if n < 0 {
        seq!['-']
    } else {
        Seq::<char>::empty()
    }));
    // The digits below the leading one, least significant first.
    let mut low: Vec<u8> = Vec::new();
    let mut rest: i128 = magnitude;
    let ghost mut tail: Seq<char> = Seq::empty();
    while rest >= 10
        invariant
            0 <= rest <= magnitude,
            tail.len() == low.len(),
            forall|j: int| 0 <= j < low.len() ==> low[j] < 10,
            forall|j: int|
                0 <= j < low.len() ==> #[trigger] tail[j] == digit_char(low[low.len() - 1 - j] as int),
            decimal_digits(magnitude as nat) == decimal_digits(rest as nat) + tail,
        decreases rest,
    {
        let d: u8 = (rest % 10) as u8;
        proof {
            let shifted = seq![digit_char(d as int)] + tail;
            assert(decimal_digits(rest as nat) == decimal_digits((rest / 10) as nat).push(
                digit_char(d as int),
            ));
            assert(decimal_digits((rest / 10) as nat).push(digit_char(d as int)) + tail
                =~= decimal_digits((rest / 10) as nat) + shifted);
            tail = shifted;
        }
        low.push(d);
        rest = rest / 10;
    }
    out.append(digit_text(rest as u8));
    let mut k: usize = low.len();
    while k > 0
        invariant
            0 <= k <= low.len(),
            tail.len() == low.len(),
            forall|j: int| 0 <= j < low.len() ==> low[j] < 10,
            forall|j: int|
                0 <= j < low.len() ==> #[trigger] tail[j] == digit_char(low[low.len() - 1 - j] as int),
            out@ == prefix + decimal_digits(rest as nat) + tail.take(low.len() - k),
            0 <= rest < 10,
        decreases k,
    {
        k = k - 1;
        let ghost j = low.len() - 1 - k;
        assert(tail[j] == digit_char(low[low.len() - 1 - j] as int));
        assert(tail.take(j + 1) =~= tail.take(j).push(tail[j]));
        out.append(digit_text(low[k]));
        assert(out@ =~= prefix + decimal_digits(rest as nat) + tail.take(j + 1));
    }
    assert(tail.take(low.len() as int) =~= tail);
    assert(out@ =~= old(out)@ + decimal(n as int));
}

/// The shortest base-ten text of `n`.
pub fn number_text(n: i64) -> (text: String)
    ensures
        text@ == decimal(n as int),
{
    let mut text = String::new();
    push_number(&mut text, n);
    assert(text@ =~= decimal(n as int));
    text
}

/// The places of the pieces of `chars[from..to]` between occurrences of
/// `sep`: for each piece, where it starts and where it ends.
pub fn split_ranges(chars: &Vec<char>, from: usize, to: usize, sep: char) -> (ranges: Vec<
    (usize, usize),
>)
    requires
        from <= to <= chars.len(),
    ensures
        ranges.len() == split(chars@.subrange(from as int, to as int), sep).len(),
        forall|i: int|
            0 <= i < ranges.len() ==> from <= (#[trigger] ranges[i]).0 <= ranges[i].1 <= to
                && chars@.subrange(ranges[i].0 as int, ranges[i].1 as int) == split(
                chars@.subrange(from as int, to as int),
                sep,
            )[i],
{
    let ghost whole = chars@.subrange(from as int, to as int);
    let mut ranges: Vec<(usize, usize)> = Vec::new();
    let ghost mut done: Seq<Seq<char>> = Seq::empty();
    let mut start: usize = from;
    let mut i: usize = from;
    assert(split(whole, sep) =~= done + split(chars@.subrange(start as int, to as int), sep));
    while i < to
        invariant
            from <= start <= i <= to <= chars.len(),
            whole == chars@.subrange(from as int, to as int),
            split(whole, sep) == done + split(chars@.subrange(start as int, to as int), sep),
            done.len() == ranges.len(),
            forall|k: int|
                0 <= k < ranges.len() ==> from <= (#[trigger] ranges[k]).0 <= ranges[k].1 <= to
                    && chars@.subrange(ranges[k].0 as int, ranges[k].1 as int) == done[k],
            forall|j: int| start <= j < i ==> #[trigger] chars[j] != sep,
        decreases to - i,
    {
        if chars[i] == sep {
            proof {
                let cur = chars@.subrange(start as int, to as int);
                assert forall|j: int| 0 <= j < i - start implies #[trigger] cur[j] != sep by {
                    assert(cur[j] == chars[start + j]);
                }
                lemma_run_len(cur, sep, i - start);
                assert(cur.take(i - start) =~= chars@.subrange(start as int, i as int));
                assert(cur.skip(i - start + 1) =~= chars@.subrange(i + 1, to as int));
                let piece = chars@.subrange(start as int, i as int);
                assert(done + (seq![piece] + split(chars@.subrange(i + 1, to as int), sep))
                    =~= done.push(piece) + split(chars@.subrange(i + 1, to as int), sep));
                done = done.push(piece);
            }
            ranges.push((start, i));
            start = i + 1;
        }
        i = i + 1;
    }
    proof {
        let cur = chars@.subrange(start as int, to as int);
        assert forall|j: int| 0 <= j < cur.len() implies #[trigger] cur[j] != sep by {
            assert(cur[j] == chars[start + j]);
        }
        lemma_run_len(cur, sep, cur.len() as int);
        assert(done + seq![cur] =~= done.push(cur));
        done = done.push(cur);
    }
    ranges.push((start, to));
    ranges
}

} // verus!
