//! Text: splitting, trimming, and numbers in decimal.

use vstd::prelude::*;
use vstd::string::*;

verus! {

/// A stretch of a text: where it starts and where it ends.
#[derive(Debug, Clone, Copy, PartialEq, Eq, Structural)]
pub struct Stretch {
    pub from: usize,
    pub to: usize,
}

impl Stretch {
    /// Whether the stretch lies within a text.
    pub open spec fn within(self, text: Seq<char>) -> bool {
        self.from <= self.to <= text.len()
    }

    /// What the stretch holds.
    pub open spec fn of(self, text: Seq<char>) -> Seq<char> {
        text.subrange(self.from as int, self.to as int)
    }
}

/// What some stretches of a text hold.
pub open spec fn pieces_of(text: Seq<char>, stretches: Seq<Stretch>) -> Seq<Seq<char>> {
    Seq::new(stretches.len(), |i: int| stretches[i].of(text))
}

/// Whether some stretches lie within a text.
pub open spec fn all_within(text: Seq<char>, stretches: Seq<Stretch>) -> bool {
    forall|i: int| 0 <= i < stretches.len() ==> (#[trigger] stretches[i]).within(text)
}

/// The characters of a text.
pub fn chars_of(text: &str) -> (chars: Vec<char>)
    ensures
        chars@ == text@,
{
    let mut chars: Vec<char> = Vec::new();
    for c in it: text.chars()
        invariant
            it.seq() == text@,
            chars@ == text@.take(it.index() as int),
    {
        chars.push(c);
    }
    assert(text@.take(text@.len() as int) =~= text@);
    chars
}

/// Whether two texts are the same.
pub fn same_text(a: &str, b: &str) -> (same: bool)
    ensures
        same == (a@ == b@),
{
    let left = chars_of(a);
    let right = chars_of(b);
    if left.len() != right.len() {
        return false;
    }
    for i in 0..left.len()
        invariant
            left@ == a@,
            right@ == b@,
            left@.len() == right@.len(),
            left@.take(i as int) == right@.take(i as int),
    {
        if left[i] != right[i] {
            return false;
        }
        assert(left@.take(i + 1) =~= left@.take(i as int).push(left@[i as int]));
        assert(right@.take(i + 1) =~= right@.take(i as int).push(right@[i as int]));
    }
    assert(left@.take(left@.len() as int) =~= left@);
    assert(right@.take(right@.len() as int) =~= right@);
    true
}

/// Whether a pattern stands in a text at a place.
pub open spec fn stands_at(text: Seq<char>, pattern: Seq<char>, at: int) -> bool {
    &&& 0 <= at
    &&& at + pattern.len() <= text.len()
    &&& text.subrange(at, at + pattern.len()) == pattern
}

/// Whether a pattern stands somewhere in a text.
pub open spec fn has_pattern(text: Seq<char>, pattern: Seq<char>) -> bool {
    exists|at: int| stands_at(text, pattern, at)
}

/// Whether a pattern stands in a text at a place.
fn matches_at(text: &[char], pattern: &[char], at: usize) -> (stands: bool)
    ensures
        stands == stands_at(text@, pattern@, at as int),
{
    if pattern.len() > text.len() || at > text.len() - pattern.len() {
        return false;
    }
    let total: usize = text.len();
    let ghost here = text@.subrange(at as int, at + pattern@.len());
    for i in 0..pattern.len()
        invariant
            total == text@.len(),
            at + pattern@.len() <= total,
            here == text@.subrange(at as int, at + pattern@.len()),
            forall|j: int| 0 <= j < i ==> here[j] == pattern@[j],
    {
        assert(here[i as int] == text@[at + i]);
        if text[at + i] != pattern[i] {
            return false;
        }
    }
    assert(here =~= pattern@);
    true
}

/// The first place from `from` on where a pattern stands in a text.
pub open spec fn first_at(text: Seq<char>, pattern: Seq<char>, from: int) -> int
    decreases text.len() - from,
{
    if from >= text.len() || stands_at(text, pattern, from) {
        from
    } else {
        first_at(text, pattern, from + 1)
    }
}

/// Finds the first place where a pattern stands in a text.
pub fn find(text: &[char], pattern: &str) -> (place: Option<usize>)
    ensures
        match place {
            Some(at) => {
                &&& stands_at(text@, pattern@, at as int)
                &&& at == first_at(text@, pattern@, 0)
            },
            None => !has_pattern(text@, pattern@),
        },
{
    let wanted = chars_of(pattern);
    let mut at: usize = 0;
    while at < text.len()
        invariant
            at <= text@.len(),
            wanted@ == pattern@,
            first_at(text@, pattern@, 0) == first_at(text@, pattern@, at as int),
            forall|p: int| 0 <= p < at ==> !(#[trigger] stands_at(text@, pattern@, p)),
        decreases text@.len() - at,
    {
        if matches_at(text, wanted.as_slice(), at) {
            return Some(at);
        }
        at += 1;
    }
    if matches_at(text, wanted.as_slice(), at) {
        Some(at)
    } else {
        None
    }
}

/// Whether a pattern stands somewhere in a text.
pub fn contains(text: &[char], pattern: &str) -> (found: bool)
    ensures
        found == has_pattern(text@, pattern@),
{
    find(text, pattern).is_some()
}

/// Whether a character is white space.
pub open spec fn is_space(c: char) -> bool {
    let u = c as u32;
    ||| 0x09 <= u <= 0x0d
    ||| u == 0x20
    ||| u == 0x85
    ||| u == 0xa0
    ||| u == 0x1680
    ||| 0x2000 <= u <= 0x200a
    ||| u == 0x2028
    ||| u == 0x2029
    ||| u == 0x202f
    ||| u == 0x205f
    ||| u == 0x3000
}

/// Whether a character is white space.
pub fn space(c: char) -> (s: bool)
    ensures
        s == is_space(c),
{
    let u: u32 = c as u32;
    (0x09 <= u && u <= 0x0d) || u == 0x20 || u == 0x85 || u == 0xa0 || u == 0x1680 || (0x2000 <= u
        && u <= 0x200a) || u == 0x2028 || u == 0x2029 || u == 0x202f || u == 0x205f || u == 0x3000
}

/// A text without white space at its end.
pub open spec fn trimmed_end(s: Seq<char>) -> Seq<char>
    decreases s.len(),
{
    if s.len() > 0 && is_space(s.last()) {
        trimmed_end(s.drop_last())
    } else {
        s
    }
}

/// A text without white space at its ends.
pub open spec fn trimmed(s: Seq<char>) -> Seq<char>
    decreases s.len(),
{
    if s.len() > 0 && is_space(s[0]) {
        trimmed(s.drop_first())
    } else {
        trimmed_end(s)
    }
}

/// Leaves out white space at the ends of a stretch.
pub fn trim(text: &[char], stretch: Stretch) -> (inner: Stretch)
    requires
        stretch.within(text@),
    ensures
        inner.within(text@),
        inner.of(text@) == trimmed(stretch.of(text@)),
{
    let mut from: usize = stretch.from;
    let mut to: usize = stretch.to;
    while from < to && space(text[from])
        invariant
            from <= to <= text@.len(),
            to == stretch.to,
            trimmed(text@.subrange(from as int, to as int)) == trimmed(stretch.of(text@)),
        decreases to - from,
    {
        assert(text@.subrange(from as int, to as int).drop_first() =~= text@.subrange(
            from + 1,
            to as int,
        ));
        from += 1;
    }
    assert(trimmed_end(text@.subrange(from as int, to as int)) == trimmed(stretch.of(text@)));
    while from < to && space(text[to - 1])
        invariant
            from <= to <= text@.len(),
            trimmed_end(text@.subrange(from as int, to as int)) == trimmed(stretch.of(text@)),
        decreases to - from,
    {
        assert(text@.subrange(from as int, to as int).drop_last() =~= text@.subrange(
            from as int,
            to - 1,
        ));
        to -= 1;
    }
    Stretch { from, to }
}

/// The pieces of a text between the occurrences of a character: one more than there are of
/// these, so some may be empty.
pub open spec fn split_on(s: Seq<char>, c: char) -> Seq<Seq<char>>
    decreases s.len(),
{
    if s.len() == 0 {
        seq![Seq::empty()]
    } else {
        let before = split_on(s.drop_last(), c);
        if s.last() == c {
            before.push(Seq::empty())
        } else {
            before.drop_last().push(before.last().push(s.last()))
        }
    }
}

/// Splits a stretch of a text at each occurrence of a character.
pub fn split(text: &[char], stretch: Stretch, c: char) -> (pieces: Vec<Stretch>)
    requires
        stretch.within(text@),
    ensures
        all_within(text@, pieces@),
        pieces_of(text@, pieces@) == split_on(stretch.of(text@), c),
        pieces@.len() >= 1,
{
    let mut done: Vec<Stretch> = Vec::new();
    let mut from: usize = stretch.from;
    let mut i: usize = stretch.from;
    assert(text@.subrange(i as int, i as int) =~= Seq::<char>::empty());
    assert(split_on(text@.subrange(i as int, i as int), c) =~= pieces_of(text@, done@).push(
        text@.subrange(i as int, i as int),
    ));
    while i < stretch.to
        invariant
            stretch.from <= from <= i <= stretch.to <= text@.len(),
            all_within(text@, done@),
            split_on(text@.subrange(stretch.from as int, i as int), c) == pieces_of(
                text@,
                done@,
            ).push(text@.subrange(from as int, i as int)),
        decreases stretch.to - i,
    {
        proof {
            let upto = text@.subrange(stretch.from as int, i + 1);
            assert(upto.drop_last() =~= text@.subrange(stretch.from as int, i as int));
            assert(upto.last() == text@[i as int]);
            assert(text@.subrange(from as int, i as int).push(text@[i as int]) =~= text@.subrange(
                from as int,
                i + 1,
            ));
            assert(text@.subrange(i + 1, i + 1) =~= Seq::<char>::empty());
        }
        let ghost before = pieces_of(text@, done@);
        let ghost last = text@.subrange(from as int, i as int);
        assert(before.push(last).drop_last() =~= before);
        if text[i] == c {
            done.push(Stretch { from, to: i });
            assert(pieces_of(text@, done@) =~= before.push(last));
            from = i + 1;
        }
        i += 1;
    }
    let ghost before = pieces_of(text@, done@);
    done.push(Stretch { from, to: i });
    assert(pieces_of(text@, done@) =~= before.push(text@.subrange(from as int, i as int)));
    done
}

/// The value of a decimal digit.
pub open spec fn digit_value(c: char) -> int {
    c as u32 - '0' as u32
}

/// Whether a character is a decimal digit.
pub open spec fn is_digit(c: char) -> bool {
    '0' as u32 <= c as u32 <= '9' as u32
}

/// The number that some digits denote.
pub open spec fn digits_value(s: Seq<char>) -> int
    decreases s.len(),
{
    if s.len() == 0 {
        0
    } else {
        10 * digits_value(s.drop_last()) + digit_value(s.last())
    }
}

/// A text without a plus sign in front.
pub open spec fn unsigned_part(s: Seq<char>) -> Seq<char> {
    if s.len() > 0 && s[0] == '+' {
        s.drop_first()
    } else {
        s
    }
}

/// The number that a text denotes: at least one digit and nothing else, but for a plus sign in
/// front, and no more than `max`.
pub open spec fn number_of(s: Seq<char>, max: int) -> Option<int> {
    let digits = unsigned_part(s);
    if digits.len() > 0 && (forall|i: int| 0 <= i < digits.len() ==> is_digit(#[trigger] digits[i]))
        && digits_value(digits) <= max {
        Some(digits_value(digits))
    } else {
        None
    }
}

/// Digits never denote a negative number, and more of them no smaller one.
proof fn lemma_digits_grow(s: Seq<char>, n: int)
    requires
        0 <= n <= s.len(),
        forall|i: int| 0 <= i < s.len() ==> is_digit(#[trigger] s[i]),
    ensures
        0 <= digits_value(s.take(n)) <= digits_value(s),
    decreases s.len(),
{
    if s.len() > 0 {
        let front = s.drop_last();
        assert forall|i: int| 0 <= i < front.len() implies is_digit(#[trigger] front[i]) by {
            assert(is_digit(s[i]));
        }
        assert(is_digit(s[s.len() - 1]));
        if n == s.len() {
            assert(s.take(n) =~= s);
            lemma_digits_grow(front, n - 1);
        } else {
            assert(s.take(n) =~= front.take(n));
            lemma_digits_grow(front, n);
        }
    }
}

/// Reads the number that a stretch of a text denotes.
pub fn parse_number(text: &[char], stretch: Stretch, max: u64) -> (number: Option<u64>)
    requires
        stretch.within(text@),
    ensures
        match number {
            Some(n) => number_of(stretch.of(text@), max as int) == Some(n as int),
            None => number_of(stretch.of(text@), max as int) is None,
        },
{
    let ghost whole = stretch.of(text@);
    let from: usize = if stretch.from < stretch.to && text[stretch.from] == '+' {
        stretch.from + 1
    } else {
        stretch.from
    };
    let ghost digits = unsigned_part(whole);
    assert(digits =~= text@.subrange(from as int, stretch.to as int));
    if from == stretch.to {
        return None;
    }
    let mut value: u64 = 0;
    let mut i: usize = from;
    assert(digits.take(0) =~= Seq::<char>::empty());
    while i < stretch.to
        invariant
            from <= i <= stretch.to <= text@.len(),
            whole == stretch.of(text@),
            digits == unsigned_part(whole),
            digits == text@.subrange(from as int, stretch.to as int),
            forall|j: int| 0 <= j < i - from ==> is_digit(#[trigger] digits[j]),
            value == digits_value(digits.take(i - from)),
            value <= max,
        decreases stretch.to - i,
    {
        let c: char = text[i];
        assert(c == digits[i - from]);
        let u: u32 = c as u32;
        if u < 0x30 || u > 0x39 {
            return None;
        }
        let next: u128 = 10 * (value as u128) + ((u - 0x30) as u128);
        assert(digits.take(i - from + 1).drop_last() =~= digits.take(i - from));
        assert(next == digits_value(digits.take(i - from + 1)));
        if next > max as u128 {
            proof {
                if forall|j: int| 0 <= j < digits.len() ==> is_digit(#[trigger] digits[j]) {
                    lemma_digits_grow(digits, i - from + 1);
                }
            }
            return None;
        }
        value = next as u64;
        i += 1;
    }
    assert(digits.take(digits.len() as int) =~= digits);
    Some(value)
}

/// A decimal digit as a character.
pub open spec fn digit_char(d: int) -> char {
    if d == 0 {
        '0'
    } else if d == 1 {
        '1'
    } else if d == 2 {
        '2'
    } else if d == 3 {
        '3'
    } else if d == 4 {
        '4'
    } else if d == 5 {
        '5'
    } else if d == 6 {
        '6'
    } else if d == 7 {
        '7'
    } else if d == 8 {
        '8'
    } else {
        '9'
    }
}

/// A number in decimal.
pub open spec fn decimal(n: nat) -> Seq<char>
    decreases n,
{
    if n < 10 {
        seq![digit_char(n as int)]
    } else {
        decimal(n / 10).push(digit_char((n % 10) as int))
    }
}

/// Appends a digit to a text.
fn push_digit(out: &mut String, d: u8)
    requires
        d < 10,
    ensures
        final(out)@ == old(out)@.push(digit_char(d as int)),
{
    proof {
        reveal_strlit("0");
        reveal_strlit("1");
        reveal_strlit("2");
        reveal_strlit("3");
        reveal_strlit("4");
        reveal_strlit("5");
        reveal_strlit("6");
        reveal_strlit("7");
        reveal_strlit("8");
        reveal_strlit("9");
    }
    if d == 0 {
        out.append("0");
    } else if d == 1 {
        out.append("1");
    } else if d == 2 {
        out.append("2");
    } else if d == 3 {
        out.append("3");
    } else if d == 4 {
        out.append("4");
    } else if d == 5 {
        out.append("5");
    } else if d == 6 {
        out.append("6");
    } else if d == 7 {
        out.append("7");
    } else if d == 8 {
        out.append("8");
    } else {
        out.append("9");
    }
    assert(out@ =~= old(out)@.push(digit_char(d as int)));
}

/// Appends a number in decimal to a text.
pub fn push_decimal(out: &mut String, n: u64)
    ensures
        final(out)@ == old(out)@ + decimal(n as nat),
    decreases n,
{
    if n < 10 {
        push_digit(out, n as u8);
    } else {
        push_decimal(out, n / 10);
        push_digit(out, (n % 10) as u8);
    }
    assert(out@ =~= old(out)@ + decimal(n as nat));
}

/// A number written in decimal is read back.
pub proof fn law_decimal_reads_back(n: nat, max: int)
    requires
        n <= max,
    ensures
        number_of(decimal(n), max) == Some(n as int),
{
    lemma_decimal(n);
    assert(decimal(n)[0] != '+') by {
        assert(is_digit(decimal(n)[0]));
    }
}

/// A number in decimal is made of digits that denote it.
proof fn lemma_decimal(n: nat)
    ensures
        decimal(n).len() > 0,
        forall|i: int| 0 <= i < decimal(n).len() ==> is_digit(#[trigger] decimal(n)[i]),
        digits_value(decimal(n)) == n,
    decreases n,
{
    if n < 10 {
        assert(decimal(n).drop_last() =~= Seq::<char>::empty());
        assert(digits_value(Seq::<char>::empty()) == 0);
    } else {
        lemma_decimal(n / 10);
        let front = decimal(n / 10);
        assert(decimal(n).drop_last() =~= front);
        assert forall|i: int| 0 <= i < decimal(n).len() implies is_digit(
            #[trigger] decimal(n)[i],
        ) by {
            if i < front.len() {
                assert(decimal(n)[i] == front[i]);
            }
        }
    }
}

/// A number in decimal ends with its last digit, behind the decimal of what is left without it.
pub proof fn law_decimals_end_with_their_last_digit(n: nat)
    ensures
        decimal(n).len() >= 1,
        decimal(n).last() as u32 == 48 + n % 10,
        n >= 10 ==> decimal(n).drop_last() == decimal(n / 10),
        n < 10 ==> decimal(n).len() == 1,
{
    if n >= 10 {
        assert(decimal(n).drop_last() =~= decimal(n / 10));
    }
}

/// Digits denote the number that each further digit makes ten times larger, and adds to.
pub proof fn law_digits_denote_in_base_ten(s: Seq<char>, c: char)
    ensures
        digits_value(Seq::empty()) == 0,
        digits_value(s.push(c)) == 10 * digits_value(s) + (c as u32 - 48),
        is_digit(c) <==> 48 <= c as u32 <= 57,
{
    assert(s.push(c).drop_last() =~= s);
}

/// A text denotes a number where it is made of digits, one at least, behind a plus sign or none;
/// the number is what the digits denote, and must not exceed the limit.
pub proof fn law_numbers_are_made_of_digits(s: Seq<char>, max: int)
    requires
        s.len() > 0 ==> s[0] != '+',
    ensures
        number_of(seq!['+'] + s, max) == number_of(s, max),
        s.len() == 0 ==> number_of(s, max) is None,
        (exists|i: int| 0 <= i < s.len() && !(48 <= (#[trigger] s[i]) as u32 <= 57)) ==> number_of(
            s,
            max,
        ) is None,
        s.len() > 0 && (forall|i: int| 0 <= i < s.len() ==> 48 <= (#[trigger] s[i]) as u32 <= 57)
            ==> {
            &&& digits_value(s) <= max ==> number_of(s, max) == Some(digits_value(s))
            &&& digits_value(s) > max ==> number_of(s, max) is None
        },
{
    assert((seq!['+'] + s).drop_first() =~= s);
    assert(unsigned_part(s) == s);
    assert(unsigned_part(seq!['+'] + s) == s);
    if exists|i: int| 0 <= i < s.len() && !(48 <= (#[trigger] s[i]) as u32 <= 57) {
        let i = choose|i: int| 0 <= i < s.len() && !(48 <= (#[trigger] s[i]) as u32 <= 57);
        assert(!is_digit(s[i]));
    }
    if forall|i: int| 0 <= i < s.len() ==> 48 <= (#[trigger] s[i]) as u32 <= 57 {
        assert forall|i: int| 0 <= i < s.len() implies is_digit(#[trigger] s[i]) by {
            assert(48 <= s[i] as u32 <= 57);
        }
    }
}

/// A text with a separator in it splits into the pieces in front of it and those behind it; one
/// without the separator is a single piece.
pub proof fn law_texts_split_at_each_separator(s: Seq<char>, t: Seq<char>, c: char)
    ensures
        split_on(s + seq![c] + t, c) == split_on(s, c) + split_on(t, c),
        !s.contains(c) ==> split_on(s, c) == seq![s],
    decreases t.len(), s.len(),
{
    let whole = s + seq![c] + t;
    if t.len() == 0 {
        assert(whole.drop_last() =~= s);
        assert(t =~= Seq::<char>::empty());
        assert(split_on(whole, c) =~= split_on(s, c) + split_on(t, c));
        if !s.contains(c) {
            lemma_split_whole(s, c);
        }
    } else {
        let front = t.drop_last();
        law_texts_split_at_each_separator(s, front, c);
        assert(whole.drop_last() =~= s + seq![c] + front);
        lemma_split_some(front, c);
        let a = split_on(s, c);
        let b = split_on(front, c);
        if t.last() == c {
            assert((a + b).push(Seq::empty()) =~= a + b.push(Seq::empty()));
        } else {
            let last = b.last().push(t.last());
            assert((a + b).drop_last().push((a + b).last().push(t.last())) =~= a
                + b.drop_last().push(last));
        }
    }
}

/// A split has at least one piece.
proof fn lemma_split_some(s: Seq<char>, c: char)
    ensures
        split_on(s, c).len() >= 1,
    decreases s.len(),
{
    if s.len() > 0 {
        lemma_split_some(s.drop_last(), c);
    }
}

/// Without the separator a text is a single piece.
proof fn lemma_split_whole(s: Seq<char>, c: char)
    requires
        !s.contains(c),
    ensures
        split_on(s, c) == seq![s],
    decreases s.len(),
{
    if s.len() == 0 {
        assert(s =~= Seq::<char>::empty());
    } else {
        let front = s.drop_last();
        assert(!front.contains(c)) by {
            if front.contains(c) {
                let i = choose|i: int| 0 <= i < front.len() && front[i] == c;
                assert(s[i] == c);
            }
        }
        assert(s[s.len() - 1] == s.last());
        lemma_split_whole(front, c);
        assert(seq![front].drop_last() =~= Seq::<Seq<char>>::empty());
        assert(front.push(s.last()) =~= s);
        assert(split_on(s, c) =~= seq![s]);
    }
}

/// Trimming takes off the white space in front and behind, and nothing else.
pub proof fn law_trimming_takes_off_white_space(pre: Seq<char>, text: Seq<char>, post: Seq<char>)
    requires
        forall|i: int| 0 <= i < pre.len() ==> is_space(#[trigger] pre[i]),
        forall|i: int| 0 <= i < post.len() ==> is_space(#[trigger] post[i]),
        text.len() > 0 ==> !is_space(text[0]) && !is_space(text.last()),
    ensures
        trimmed(pre + text + post) == text,
    decreases pre.len(), post.len(),
{
    let whole = pre + text + post;
    if pre.len() > 0 {
        let rest = pre.drop_first();
        assert(whole.drop_first() =~= rest + text + post);
        assert(whole[0] == pre[0]);
        assert forall|i: int| 0 <= i < rest.len() implies is_space(#[trigger] rest[i]) by {
            assert(rest[i] == pre[i + 1]);
        }
        law_trimming_takes_off_white_space(rest, text, post);
    } else if text.len() == 0 && post.len() > 0 {
        assert(whole =~= post);
        lemma_all_space(post);
        assert(text =~= Seq::<char>::empty());
    } else {
        assert(whole =~= text + post);
        if text.len() > 0 {
            assert(whole[0] == text[0]);
        }
        lemma_trimmed_end(text, post);
    }
}

/// Nothing is left of white space.
proof fn lemma_all_space(s: Seq<char>)
    requires
        forall|i: int| 0 <= i < s.len() ==> is_space(#[trigger] s[i]),
    ensures
        trimmed(s) == Seq::<char>::empty(),
    decreases s.len(),
{
    if s.len() > 0 {
        let rest = s.drop_first();
        assert forall|i: int| 0 <= i < rest.len() implies is_space(#[trigger] rest[i]) by {
            assert(rest[i] == s[i + 1]);
        }
        lemma_all_space(rest);
    } else {
        assert(s =~= Seq::<char>::empty());
    }
}

/// White space behind a text is taken off.
proof fn lemma_trimmed_end(text: Seq<char>, post: Seq<char>)
    requires
        forall|i: int| 0 <= i < post.len() ==> is_space(#[trigger] post[i]),
        text.len() > 0 ==> !is_space(text.last()),
    ensures
        trimmed_end(text + post) == text,
    decreases post.len(),
{
    if post.len() > 0 {
        let rest = post.drop_last();
        assert((text + post).drop_last() =~= text + rest);
        assert((text + post).last() == post[post.len() - 1]);
        assert forall|i: int| 0 <= i < rest.len() implies is_space(#[trigger] rest[i]) by {
            assert(rest[i] == post[i]);
        }
        lemma_trimmed_end(text, rest);
    } else {
        assert(text + post =~= text);
    }
}

/// White space is the characters that Unicode gives that property.
pub proof fn law_white_space_is_what_unicode_says(c: char)
    ensures
        is_space(c) <==> {
            ||| c as u32 == 0x09
            ||| c as u32 == 0x0a
            ||| c as u32 == 0x0b
            ||| c as u32 == 0x0c
            ||| c as u32 == 0x0d
            ||| c as u32 == 0x20
            ||| c as u32 == 0x85
            ||| c as u32 == 0xa0
            ||| c as u32 == 0x1680
            ||| 0x2000 <= c as u32 <= 0x200a
            ||| c as u32 == 0x2028
            ||| c as u32 == 0x2029
            ||| c as u32 == 0x202f
            ||| c as u32 == 0x205f
            ||| c as u32 == 0x3000
        },
{
}

/// A pattern is found wherever it stands, and first where it stands first.
pub proof fn law_patterns_are_found(front: Seq<char>, pattern: Seq<char>, back: Seq<char>)
    ensures
        has_pattern(front + pattern + back, pattern),
        pattern.len() > 0 ==> first_at(front + pattern + back, pattern, 0) <= front.len(),
        forall|text: Seq<char>| #[trigger]
            has_pattern(text, pattern) && pattern.len() > 0 ==> {
                let at = first_at(text, pattern, 0);
                &&& 0 <= at
                &&& at + pattern.len() <= text.len()
                &&& text.subrange(at, at + pattern.len()) == pattern
                &&& forall|p: int|
                    0 <= p < at ==> #[trigger] text.subrange(p, p + pattern.len()) != pattern
            },
{
    let whole = front + pattern + back;
    assert(whole.subrange(front.len() as int, (front.len() + pattern.len()) as int) =~= pattern);
    assert(stands_at(whole, pattern, front.len() as int));
    if pattern.len() > 0 {
        lemma_first_at(whole, pattern, 0, front.len() as int);
    }
    assert forall|text: Seq<char>| #[trigger] has_pattern(text, pattern) && pattern.len() > 0 implies {
        let at = first_at(text, pattern, 0);
        &&& 0 <= at
        &&& at + pattern.len() <= text.len()
        &&& text.subrange(at, at + pattern.len()) == pattern
        &&& forall|p: int|
            0 <= p < at ==> #[trigger] text.subrange(p, p + pattern.len()) != pattern
    } by {
        let some = choose|at: int| stands_at(text, pattern, at);
        lemma_first_at(text, pattern, 0, some);
        let at = first_at(text, pattern, 0);
        assert forall|p: int| 0 <= p < at implies #[trigger] text.subrange(p, p + pattern.len())
            != pattern by {
            assert(!stands_at(text, pattern, p));
        }
    }
}

/// The first place is a place, and none in front of it is.
proof fn lemma_first_at(text: Seq<char>, pattern: Seq<char>, from: int, some: int)
    requires
        0 <= from <= some,
        pattern.len() > 0,
        stands_at(text, pattern, some),
    ensures
        from <= first_at(text, pattern, from) <= some,
        stands_at(text, pattern, first_at(text, pattern, from)),
        forall|p: int|
            from <= p < first_at(text, pattern, from) ==> !(#[trigger] stands_at(
                text,
                pattern,
                p,
            )),
    decreases text.len() - from,
{
    if !stands_at(text, pattern, from) {
        lemma_first_at(text, pattern, from + 1, some);
    }
}

/// Only one plus sign may stand in front of a number.
pub proof fn law_one_plus_sign_at_most(s: Seq<char>, max: int)
    ensures
        number_of(seq!['+', '+'] + s, max) is None,
{
    let text = seq!['+', '+'] + s;
    let digits = unsigned_part(text);
    assert(digits =~= seq!['+'] + s);
    assert(digits[0] == '+');
    assert(!is_digit(digits[0]));
}

/// A stretch of a text is what stands from its start up to its end.
pub proof fn law_stretches_hold_what_stands_between(
    text: Seq<char>,
    stretches: Seq<Stretch>,
    i: int,
)
    requires
        0 <= i < stretches.len(),
    ensures
        stretches[i].within(text) <==> stretches[i].from <= stretches[i].to <= text.len(),
        stretches[i].of(text) == text.subrange(stretches[i].from as int, stretches[i].to as int),
        pieces_of(text, stretches).len() == stretches.len(),
        pieces_of(text, stretches)[i] == stretches[i].of(text),
{
}

} // verus!
