//! Reading words and numbers out of text.
use crate::oob::decimal;
use vstd::arithmetic::power::pow;
use vstd::prelude::*;

verus! {

/// Whether `c` has the Unicode property White_Space.
pub open spec fn is_space(c: char) -> bool {
    let u = c as u32;
    ||| 0x09 <= u <= 0x0D
    ||| u == 0x20
    ||| u == 0x85
    ||| u == 0xA0
    ||| u == 0x1680
    ||| 0x2000 <= u <= 0x200A
    ||| u == 0x2028
    ||| u == 0x2029
    ||| u == 0x202F
    ||| u == 0x205F
    ||| u == 0x3000
}

/// Whether `c` is one of the ten ASCII digits.
pub open spec fn is_digit(c: char) -> bool {
    '0' <= c && c <= '9'
}

/// Length of the longest front part of `s` that `p` holds of throughout.
pub open spec fn prefix_len(s: Seq<char>, p: spec_fn(char) -> bool) -> nat
    decreases s.len(),
{
    if s.len() > 0 && p(s[0]) {
        1 + prefix_len(s.drop_first(), p)
    } else {
        0
    }
}

/// Number of characters of white space at the front of `s`.
pub open spec fn space_len(s: Seq<char>) -> nat {
    prefix_len(s, |c: char| is_space(c))
}

/// Number of characters of `s` before its first white space.
pub open spec fn word_len(s: Seq<char>) -> nat {
    prefix_len(s, |c: char| !is_space(c))
}

/// Number of characters in the first line of `s`.
pub open spec fn line_len(s: Seq<char>) -> nat {
    prefix_len(s, |c: char| c != '\n')
}

/// `s` without the white space at its front.
pub open spec fn trim_front(s: Seq<char>) -> Seq<char> {
    s.skip(space_len(s) as int)
}

/// `s` without the white space at its back.
pub open spec fn trim_back(s: Seq<char>) -> Seq<char>
    decreases s.len(),
{
    if s.len() > 0 && is_space(s.last()) {
        trim_back(s.drop_last())
    } else {
        s
    }
}

/// `s` without the white space at its ends.
pub open spec fn trimmed(s: Seq<char>) -> Seq<char> {
    trim_back(trim_front(s))
}

/// The first line of `s`, without its end.
pub open spec fn first_line(s: Seq<char>) -> Seq<char> {
    s.take(line_len(s) as int)
}

/// The second of the words of `s` that white space separates, empty where there
/// are fewer than two.
pub open spec fn second_word(s: Seq<char>) -> Seq<char> {
    let first = trim_front(s);
    let second = trim_front(first.skip(word_len(first) as int));
    second.take(word_len(second) as int)
}

/// The number that the digits `s` write in base ten.
pub open spec fn digits_value(s: Seq<char>) -> nat
    decreases s.len(),
{
    if s.len() == 0 {
        0
    } else {
        10 * digits_value(s.drop_last()) + (s.last() as nat - '0' as nat) as nat
    }
}

/// The digits of a written number: a plus sign may stand before them.
pub open spec fn unsigned_part(s: Seq<char>) -> Seq<char> {
    if s.len() > 0 && s[0] == '+' {
        s.drop_first()
    } else {
        s
    }
}

/// The number that `s` writes, if it writes one that is at most `max`: an
/// optional plus sign, and then one or more digits and nothing else.
pub open spec fn number(s: Seq<char>, max: nat) -> Option<nat> {
    let digits = unsigned_part(s);
    if digits.len() > 0 && (forall|i: int|
        0 <= i < digits.len() ==> is_digit(#[trigger] digits[i])) && digits_value(digits) <= max {
        Some(digits_value(digits))
    } else {
        None
    }
}

proof fn lemma_prefix_len(s: Seq<char>, p: spec_fn(char) -> bool, k: nat)
    requires
        k <= s.len(),
        forall|j: int| 0 <= j < k ==> p(#[trigger] s[j]),
        k < s.len() ==> !p(s[k as int]),
    ensures
        prefix_len(s, p) == k,
    decreases k,
{
    if k > 0 {
        assert(p(s[0]));
        let rest = s.drop_first();
        assert forall|j: int| 0 <= j < k - 1 implies p(#[trigger] rest[j]) by {
            assert(p(s[j + 1]));
        }
        lemma_prefix_len(rest, p, (k - 1) as nat);
    }
}

/// The front part that `prefix_len` measures holds only characters that `p`
/// holds of, and the next one, if there is one, is none of them.
pub proof fn lemma_front_part(s: Seq<char>, p: spec_fn(char) -> bool)
    ensures
        prefix_len(s, p) <= s.len(),
        forall|j: int| 0 <= j < prefix_len(s, p) ==> p(#[trigger] s[j]),
        prefix_len(s, p) < s.len() ==> !p(s[prefix_len(s, p) as int]),
    decreases s.len(),
{
    if s.len() > 0 && p(s[0]) {
        let rest = s.drop_first();
        lemma_front_part(rest, p);
        assert forall|j: int| 0 <= j < prefix_len(s, p) implies p(#[trigger] s[j]) by {
            if j > 0 {
                assert(s[j] == rest[j - 1]);
            }
        }
    }
}

/// The characters of white space are twenty-five.
pub proof fn lemma_white_space(c: char)
    ensures
        is_space(c) <==> seq![
            '\t', '\n', '\u{b}', '\u{c}', '\r', ' ', '\u{85}', '\u{a0}', '\u{1680}', '\u{2000}',
            '\u{2001}', '\u{2002}', '\u{2003}', '\u{2004}', '\u{2005}', '\u{2006}', '\u{2007}',
            '\u{2008}', '\u{2009}', '\u{200a}', '\u{2028}', '\u{2029}', '\u{202f}', '\u{205f}',
            '\u{3000}',
        ].contains(c),
{
    let all = seq![
        '\t', '\n', '\u{b}', '\u{c}', '\r', ' ', '\u{85}', '\u{a0}', '\u{1680}', '\u{2000}',
        '\u{2001}', '\u{2002}', '\u{2003}', '\u{2004}', '\u{2005}', '\u{2006}', '\u{2007}',
        '\u{2008}', '\u{2009}', '\u{200a}', '\u{2028}', '\u{2029}', '\u{202f}', '\u{205f}',
        '\u{3000}',
    ];
    let u = c as u32;
    if is_space(c) {
        let i: int = if 0x09 <= u <= 0x0D {
            u - 0x09
        } else if u == 0x20 {
            5
        } else if u == 0x85 {
            6
        } else if u == 0xA0 {
            7
        } else if u == 0x1680 {
            8
        } else if 0x2000 <= u <= 0x200A {
            u - 0x2000 + 9
        } else if u == 0x2028 {
            20
        } else if u == 0x2029 {
            21
        } else if u == 0x202F {
            22
        } else if u == 0x205F {
            23
        } else {
            24
        };
        assert(all[i] == c);
    }
}

/// A text is its first line up to the first line feed.
pub proof fn lemma_first_line(line: Seq<char>, rest: Seq<char>)
    requires
        !line.contains('\n'),
    ensures
        first_line(line) == line,
        first_line(line.push('\n') + rest) == line,
        line_len(line) == line.len(),
        line_len(line.push('\n') + rest) == line.len(),
{
    let p = |c: char| c != '\n';
    let text = line.push('\n') + rest;
    assert forall|j: int| 0 <= j < line.len() implies #[trigger] line[j] != '\n' by {
        assert(line.contains(line[j]));
    }
    lemma_prefix_len(line, p, line.len());
    assert forall|j: int| 0 <= j < line.len() implies p(#[trigger] text[j]) by {
        assert(text[j] == line[j]);
    }
    lemma_prefix_len(text, p, line.len());
    assert(first_line(line) =~= line);
    assert(first_line(text) =~= line);
}

/// White space at the front goes, and nothing else.
pub proof fn lemma_trim_front(front: Seq<char>, rest: Seq<char>)
    requires
        forall|j: int| 0 <= j < front.len() ==> is_space(#[trigger] front[j]),
        rest.len() > 0 ==> !is_space(rest[0]),
    ensures
        space_len(front + rest) == front.len(),
        trim_front(front + rest) == rest,
{
    let text = front + rest;
    assert forall|j: int| 0 <= j < front.len() implies is_space(#[trigger] text[j]) by {
        assert(text[j] == front[j]);
    }
    lemma_prefix_len(text, |c: char| is_space(c), front.len());
    assert(trim_front(text) =~= rest);
}

proof fn lemma_trim_back(rest: Seq<char>, back: Seq<char>)
    requires
        forall|j: int| 0 <= j < back.len() ==> is_space(#[trigger] back[j]),
        rest.len() > 0 ==> !is_space(rest.last()),
    ensures
        trim_back(rest + back) == rest,
    decreases back.len(),
{
    if back.len() == 0 {
        assert(rest + back =~= rest);
    } else {
        assert((rest + back).drop_last() =~= rest + back.drop_last());
        assert((rest + back).last() == back[back.len() - 1]);
        lemma_trim_back(rest, back.drop_last());
    }
}

/// White space at both ends goes, and nothing else.
pub proof fn lemma_trimmed(front: Seq<char>, middle: Seq<char>, back: Seq<char>)
    requires
        forall|j: int| 0 <= j < front.len() ==> is_space(#[trigger] front[j]),
        forall|j: int| 0 <= j < back.len() ==> is_space(#[trigger] back[j]),
        middle.len() > 0,
        !is_space(middle[0]),
        !is_space(middle.last()),
    ensures
        trimmed(front + middle + back) == middle,
        trimmed(front) == Seq::<char>::empty(),
{
    assert(front + middle + back =~= front + (middle + back));
    lemma_trim_front(front, middle + back);
    lemma_trim_back(middle, back);
    lemma_trim_front(front, Seq::empty());
    assert(front + Seq::<char>::empty() =~= front);
}

proof fn lemma_word_len(word: Seq<char>, rest: Seq<char>)
    requires
        forall|j: int| 0 <= j < word.len() ==> !is_space(#[trigger] word[j]),
        rest.len() > 0 ==> is_space(rest[0]),
    ensures
        word_len(word + rest) == word.len(),
{
    let text = word + rest;
    assert forall|j: int| 0 <= j < word.len() implies !is_space(#[trigger] text[j]) by {
        assert(text[j] == word[j]);
    }
    lemma_prefix_len(text, |c: char| !is_space(c), word.len());
}

/// The second word stands behind a first word and the white space after it, up
/// to the next white space or the end.
pub proof fn lemma_second_word(
    front: Seq<char>,
    first: Seq<char>,
    gap: Seq<char>,
    second: Seq<char>,
    rest: Seq<char>,
)
    requires
        forall|j: int| 0 <= j < front.len() ==> is_space(#[trigger] front[j]),
        forall|j: int| 0 <= j < first.len() ==> !is_space(#[trigger] first[j]),
        forall|j: int| 0 <= j < gap.len() ==> is_space(#[trigger] gap[j]),
        forall|j: int| 0 <= j < second.len() ==> !is_space(#[trigger] second[j]),
        first.len() > 0,
        gap.len() > 0,
        second.len() > 0,
        rest.len() > 0 ==> is_space(rest[0]),
    ensures
        second_word(front + first + gap + second + rest) == second,
        second_word(front + first + gap) == Seq::<char>::empty(),
        second_word(front + first) == Seq::<char>::empty(),
        second_word(front) == Seq::<char>::empty(),
{
    let none = Seq::<char>::empty();
    lemma_second_word_of(front, first, gap, second, rest);
    lemma_second_word_of(front, first, gap, none, none);
    lemma_second_word_of(front, first, none, none, none);
    lemma_second_word_of(front, none, none, none, none);
    assert(front + first + gap + none + none =~= front + first + gap);
    assert(front + first + none + none + none =~= front + first);
    assert(front + none + none + none + none =~= front);
}

proof fn lemma_second_word_of(
    front: Seq<char>,
    first: Seq<char>,
    gap: Seq<char>,
    second: Seq<char>,
    rest: Seq<char>,
)
    requires
        forall|j: int| 0 <= j < front.len() ==> is_space(#[trigger] front[j]),
        forall|j: int| 0 <= j < first.len() ==> !is_space(#[trigger] first[j]),
        forall|j: int| 0 <= j < gap.len() ==> is_space(#[trigger] gap[j]),
        forall|j: int| 0 <= j < second.len() ==> !is_space(#[trigger] second[j]),
        first.len() == 0 ==> gap.len() == 0,
        gap.len() == 0 ==> second.len() == 0,
        second.len() == 0 ==> rest.len() == 0,
        rest.len() > 0 ==> is_space(rest[0]),
    ensures
        second_word(front + first + gap + second + rest) == second,
{
    let text = front + first + gap + second + rest;
    let after_front = first + (gap + (second + rest));
    assert(text =~= front + after_front);
    lemma_trim_front(front, after_front);
    lemma_word_len(first, gap + (second + rest));
    let after_first = after_front.skip(first.len() as int);
    assert(after_first =~= gap + (second + rest));
    lemma_trim_front(gap, second + rest);
    lemma_word_len(second, rest);
    assert((second + rest).take(second.len() as int) =~= second);
}

/// A digit stands for its distance from `0`, and digits behind others for the
/// lower places in base ten.
pub proof fn lemma_digits_value(front: Seq<char>, back: Seq<char>, c: char)
    requires
        '0' <= c <= '9',
    ensures
        is_digit(c),
        digits_value(seq![c]) == c as nat - '0' as nat,
        digits_value(front + back) == digits_value(front) * pow(10, back.len())
            + digits_value(back),
    decreases back.len(),
{
    reveal_with_fuel(digits_value, 2);
    assert(seq![c].drop_last() =~= Seq::<char>::empty());
    reveal(pow);
    if back.len() == 0 {
        assert(front + back =~= front);
        assert(digits_value(front) * 1 == digits_value(front)) by (nonlinear_arith);
    } else {
        let rest = back.drop_last();
        lemma_digits_value(front, rest, c);
        assert((front + back).drop_last() =~= front + rest);
        let (v, q) = (digits_value(front) as int, pow(10, rest.len()));
        assert(10 * (v * q) == v * (10 * q)) by (nonlinear_arith);
    }
}

/// The characters of `n` written in base ten.
pub open spec fn written(n: nat) -> Seq<char> {
    Seq::new(decimal(n).len(), |i: int| decimal(n)[i] as char)
}

proof fn lemma_written_value(n: nat)
    ensures
        written(n).len() > 0,
        forall|i: int| 0 <= i < written(n).len() ==> is_digit(#[trigger] written(n)[i]),
        digits_value(written(n)) == n,
    decreases n,
{
    reveal_with_fuel(digits_value, 2);
    if n < 10 {
        assert(written(n).drop_last() =~= Seq::<char>::empty());
    } else {
        lemma_written_value(n / 10);
        assert(written(n).drop_last() =~= written(n / 10));
        assert forall|i: int| 0 <= i < written(n).len() implies is_digit(
            #[trigger] written(n)[i],
        ) by {
            if i < written(n).len() - 1 {
                assert(written(n)[i] == written(n / 10)[i]);
            }
        }
    }
}

/// A written number is made of digits, at least one.
pub proof fn lemma_written_digits(n: nat)
    ensures
        written(n).len() > 0,
        forall|i: int|
            0 <= i < written(n).len() ==> '0' <= #[trigger] written(n)[i] <= '9' && !is_space(
                written(n)[i],
            ),
{
    lemma_written_value(n);
    assert forall|i: int| 0 <= i < written(n).len() implies '0' <= #[trigger] written(n)[i] <= '9'
        && !is_space(written(n)[i]) by {
        assert(is_digit(written(n)[i]));
    }
}

/// Reading gives back what was written, also behind a plus sign and zeros,
/// where it is at most `max`.
pub proof fn lemma_number_read_back(n: nat, zeros: nat, max: nat)
    ensures
        ({
            let digits = Seq::new(zeros, |i: int| '0') + written(n);
            let read = if n <= max {
                Some(n)
            } else {
                None
            };
            &&& number(written(n), max) == read
            &&& number(digits, max) == read
            &&& number(seq!['+'] + digits, max) == read
        }),
{
    let front = Seq::new(zeros, |i: int| '0');
    let digits = front + written(n);
    lemma_written_value(n);
    lemma_zeros_value(zeros);
    lemma_digits_value(front, written(n), '0');
    assert(0 * pow(10, written(n).len()) == 0) by (nonlinear_arith);
    assert forall|i: int| 0 <= i < digits.len() implies is_digit(#[trigger] digits[i]) by {
        if i >= zeros {
            assert(digits[i] == written(n)[i - zeros]);
        }
    }
    assert(is_digit(digits[0]));
    assert(is_digit(written(n)[0]));
    assert((seq!['+'] + digits).drop_first() =~= digits);
}

proof fn lemma_zeros_value(zeros: nat)
    ensures
        digits_value(Seq::new(zeros, |i: int| '0')) == 0,
    decreases zeros,
{
    if zeros > 0 {
        let m = (zeros - 1) as nat;
        lemma_zeros_value(m);
        assert(Seq::new(zeros, |i: int| '0').drop_last() =~= Seq::new(m, |i: int| '0'));
    }
}

/// A text writes a number only if it is digits, at least one, behind at most one
/// plus sign.
pub proof fn lemma_no_number(s: Seq<char>, i: int, max: nat)
    requires
        0 <= i < s.len(),
        !('0' <= s[i] <= '9'),
        s[i] == '+' ==> i > 0 || s.len() == 1,
    ensures
        number(s, max) is None,
        number(Seq::empty(), max) is None,
{
    let digits = unsigned_part(s);
    if s[0] == '+' {
        if i > 0 {
            assert(digits[i - 1] == s[i]);
        }
    } else {
        assert(digits[i] == s[i]);
    }
}

/// More digits never make the number smaller.
proof fn lemma_digits_value_grows(s: Seq<char>, k: nat)
    requires
        k <= s.len(),
    ensures
        digits_value(s.take(k as int)) <= digits_value(s),
    decreases s.len(),
{
    if k == s.len() {
        assert(s.take(k as int) =~= s);
    } else {
        lemma_digits_value_grows(s.drop_last(), k);
        assert(s.drop_last().take(k as int) =~= s.take(k as int));
    }
}

fn space(c: char) -> (yes: bool)
    ensures
        yes == is_space(c),
{
    let u: u32 = c as u32;
    (0x09 <= u && u <= 0x0D) || u == 0x20 || u == 0x85 || u == 0xA0 || u == 0x1680 || (0x2000 <= u
        && u <= 0x200A) || u == 0x2028 || u == 0x2029 || u == 0x202F || u == 0x205F || u == 0x3000
}

/// The characters of `s`.
pub fn chars_of(s: &str) -> (chars: Vec<char>)
    ensures
        chars@ == s@,
{
    let mut chars: Vec<char> = Vec::new();
    for c in it: s.chars()
        invariant
            chars@ == it.seq().take(it.index() as int),
            it.seq() == s@,
    {
        chars.push(c);
    }
    chars
}

/// Whether two texts are the same.
pub fn same_text(a: &str, b: &str) -> (yes: bool)
    ensures
        yes == (a@ == b@),
{
    a.to_owned() == b.to_owned()
}

/// Index of the first character of `s[from..to]` that is not white space.
fn end_of_space(s: &[char], from: usize, to: usize) -> (end: usize)
    requires
        from <= to <= s@.len(),
    ensures
        end == from + space_len(s@.subrange(from as int, to as int)),
        from <= end <= to,
{
    let mut i: usize = from;
    while i < to && space(s[i])
        invariant
            from <= i <= to <= s@.len(),
            forall|j: int| from <= j < i ==> is_space(#[trigger] s@[j]),
        decreases to - i,
    {
        i = i + 1;
    }
    proof {
        lemma_prefix_len(
            s@.subrange(from as int, to as int),
            |c: char| is_space(c),
            (i - from) as nat,
        );
    }
    i
}

/// Index of the first white space of `s[from..to]`.
fn end_of_word(s: &[char], from: usize, to: usize) -> (end: usize)
    requires
        from <= to <= s@.len(),
    ensures
        end == from + word_len(s@.subrange(from as int, to as int)),
        from <= end <= to,
{
    let mut i: usize = from;
    while i < to && !space(s[i])
        invariant
            from <= i <= to <= s@.len(),
            forall|j: int| from <= j < i ==> !is_space(#[trigger] s@[j]),
        decreases to - i,
    {
        i = i + 1;
    }
    proof {
        lemma_prefix_len(
            s@.subrange(from as int, to as int),
            |c: char| !is_space(c),
            (i - from) as nat,
        );
    }
    i
}

/// Index of the end of the line that starts at `from`.
pub fn end_of_line(s: &[char], from: usize) -> (end: usize)
    requires
        from <= s@.len(),
    ensures
        end == from + line_len(s@.skip(from as int)),
        from <= end <= s@.len(),
{
    let len: usize = s.len();
    let mut i: usize = from;
    while i < len && s[i] != '\n'
        invariant
            from <= i <= len,
            len == s@.len(),
            forall|j: int| from <= j < i ==> #[trigger] s@[j] != '\n',
        decreases len - i,
    {
        i = i + 1;
    }
    proof {
        lemma_prefix_len(s@.skip(from as int), |c: char| c != '\n', (i - from) as nat);
    }
    i
}

/// Where the second word of `s[from..to]` lies.
pub fn find_second_word(s: &[char], from: usize, to: usize) -> (range: (usize, usize))
    requires
        from <= to <= s@.len(),
    ensures
        from <= range.0 <= range.1 <= to,
        s@.subrange(range.0 as int, range.1 as int) == second_word(
            s@.subrange(from as int, to as int),
        ),
{
    let a: usize = end_of_space(s, from, to);
    let b: usize = end_of_word(s, a, to);
    let c: usize = end_of_space(s, b, to);
    let d: usize = end_of_word(s, c, to);
    proof {
        let line = s@.subrange(from as int, to as int);
        assert(trim_front(line) =~= s@.subrange(a as int, to as int));
        let first = trim_front(line);
        assert(first.skip(word_len(first) as int) =~= s@.subrange(b as int, to as int));
        let rest = first.skip(word_len(first) as int);
        assert(trim_front(rest) =~= s@.subrange(c as int, to as int));
        let second = trim_front(rest);
        assert(second.take(word_len(second) as int) =~= s@.subrange(c as int, d as int));
    }
    (c, d)
}

/// Where `s[from..to]` lies without the white space at its ends.
pub fn find_trimmed(s: &[char], from: usize, to: usize) -> (range: (usize, usize))
    requires
        from <= to <= s@.len(),
    ensures
        from <= range.0 <= range.1 <= to,
        s@.subrange(range.0 as int, range.1 as int) == trimmed(s@.subrange(from as int, to as int)),
{
    let a: usize = end_of_space(s, from, to);
    let mut b: usize = to;
    let ghost front = s@.subrange(a as int, to as int);
    assert(trim_front(s@.subrange(from as int, to as int)) =~= front);
    while b > a && space(s[b - 1])
        invariant
            a <= b <= to <= s@.len(),
            trim_back(s@.subrange(a as int, b as int)) == trim_back(front),
        decreases b,
    {
        let ghost part = s@.subrange(a as int, b as int);
        b = b - 1;
        assert(part.drop_last() =~= s@.subrange(a as int, b as int));
    }
    (a, b)
}

/// The number that `s[from..to]` writes, if it writes one that is at most `max`.
pub fn parse_number(s: &[char], from: usize, to: usize, max: u64) -> (value: Option<u64>)
    requires
        from <= to <= s@.len(),
    ensures
        value is Some <==> number(s@.subrange(from as int, to as int), max as nat) is Some,
        value matches Some(v) ==> number(s@.subrange(from as int, to as int), max as nat) == Some(
            v as nat,
        ),
{
    let ghost text = s@.subrange(from as int, to as int);
    let ghost digits = unsigned_part(text);
    let start: usize = if from < to && s[from] == '+' {
        from + 1
    } else {
        from
    };
    assert(digits =~= s@.subrange(start as int, to as int));
    if start == to {
        return None;
    }
    let mut value: u64 = 0;
    let mut i: usize = start;
    while i < to
        invariant
            start <= i <= to <= s@.len(),
            digits == s@.subrange(start as int, to as int),
            digits == unsigned_part(text),
            text == s@.subrange(from as int, to as int),
            value <= max,
            value == digits_value(digits.take(i - start)),
            forall|j: int| 0 <= j < i - start ==> is_digit(#[trigger] digits[j]),
        decreases to - i,
    {
        let c: char = s[i];
        assert(c == digits[i - start]);
        if !('0' <= c && c <= '9') {
            return None;
        }
        let digit: u64 = (c as u32 - '0' as u32) as u64;
        assert(digits.take(i - start + 1).drop_last() =~= digits.take(i - start));
        proof {
            lemma_digits_value_grows(digits, (i - start + 1) as nat);
        }
        if value > max / 10 || digit > max - value * 10 {
            return None;
        }
        value = value * 10 + digit;
        i = i + 1;
    }
    assert(digits.take(to - start) =~= digits);
    Some(value)
}

} // verus!
