//! What the kernel says of a NUMA node's memory.

use crate::text::{
    all_within, chars_of, decimal, find, first_at, has_pattern, is_space,
    law_decimal_reads_back, law_decimals_end_with_their_last_digit, number_of, parse_number,
    pieces_of, push_decimal, space, split, split_on, Stretch,
};
use vstd::prelude::*;
use vstd::slice::slice_subrange;
use vstd::string::*;

verus! {

/// The pieces of a text between white space. Some may be empty.
pub open spec fn split_on_space(s: Seq<char>) -> Seq<Seq<char>>
    decreases s.len(),
{
    if s.len() == 0 {
        seq![Seq::empty()]
    } else {
        let before = split_on_space(s.drop_last());
        if is_space(s.last()) {
            before.push(Seq::empty())
        } else {
            before.drop_last().push(before.last().push(s.last()))
        }
    }
}

/// The first piece that is a number, or zero where there is none.
pub open spec fn first_number(pieces: Seq<Seq<char>>) -> int
    decreases pieces.len(),
{
    if pieces.len() == 0 {
        0
    } else {
        match number_of(pieces[0], u64::MAX as int) {
            Some(n) => n,
            None => first_number(pieces.drop_first()),
        }
    }
}

/// The value of a line: its first word that is a number.
pub open spec fn line_value(line: Seq<char>) -> int {
    first_number(split_on_space(line))
}

/// The value of a key on a line that holds it: the first number behind it. What stands in front
/// of the key, such as the number of the node, does not count.
pub open spec fn value_behind(line: Seq<char>, key: Seq<char>) -> int {
    line_value(line.subrange(first_at(line, key, 0) + key.len(), line.len() as int))
}

/// The value of the last line that holds a key, or zero where none does.
pub open spec fn last_value(lines: Seq<Seq<char>>, key: Seq<char>) -> int
    decreases lines.len(),
{
    if lines.len() == 0 {
        0
    } else if has_pattern(lines.last(), key) {
        value_behind(lines.last(), key)
    } else {
        last_value(lines.drop_last(), key)
    }
}

/// The value of a key in a text of lines.
pub open spec fn value_of(content: Seq<char>, key: Seq<char>) -> int {
    last_value(split_on(content, '\n'), key)
}

/// Splits a stretch of a text at white space.
fn split_space(text: &[char], stretch: Stretch) -> (pieces: Vec<Stretch>)
    requires
        stretch.within(text@),
    ensures
        all_within(text@, pieces@),
        pieces_of(text@, pieces@) == split_on_space(stretch.of(text@)),
{
    let mut done: Vec<Stretch> = Vec::new();
    let mut from: usize = stretch.from;
    let mut i: usize = stretch.from;
    assert(text@.subrange(i as int, i as int) =~= Seq::<char>::empty());
    assert(split_on_space(text@.subrange(i as int, i as int)) =~= pieces_of(text@, done@).push(
        text@.subrange(i as int, i as int),
    ));
    while i < stretch.to
        invariant
            stretch.from <= from <= i <= stretch.to <= text@.len(),
            all_within(text@, done@),
            split_on_space(text@.subrange(stretch.from as int, i as int)) == pieces_of(
                text@,
                done@,
            ).push(text@.subrange(from as int, i as int)),
        decreases stretch.to - i,
    {
        let ghost before = pieces_of(text@, done@);
        let ghost last = text@.subrange(from as int, i as int);
        proof {
            let upto = text@.subrange(stretch.from as int, i + 1);
            assert(upto.drop_last() =~= text@.subrange(stretch.from as int, i as int));
            assert(upto.last() == text@[i as int]);
            assert(last.push(text@[i as int]) =~= text@.subrange(from as int, i + 1));
            assert(text@.subrange(i + 1, i + 1) =~= Seq::<char>::empty());
            assert(before.push(last).drop_last() =~= before);
        }
        if space(text[i]) {
            done.push(Stretch { from, to: i });
            assert(pieces_of(text@, done@) =~= before.push(last));
            from = i + 1;
        }
        i += 1;
    }
    let ghost before = pieces_of(text@, done@);
    done.push(Stretch { from, to: i });
    assert(pieces_of(text@, done@) =~= before.push(text@.subrange(from as int, i as int)));
    done
}

/// The value of a line: its first word that is a number, or zero where there is none.
pub fn parse_meminfo_value(line: &[char]) -> (value: u64)
    ensures
        value == line_value(line@),
{
    let whole = Stretch { from: 0, to: line.len() };
    assert(whole.of(line@) =~= line@);
    let pieces = split_space(line, whole);
    let ghost texts = pieces_of(line@, pieces@);
    assert(texts.skip(0) =~= texts);
    for i in 0..pieces.len()
        invariant
            all_within(line@, pieces@),
            texts == pieces_of(line@, pieces@),
            texts == split_on_space(line@),
            first_number(texts) == first_number(texts.skip(i as int)),
    {
        assert(texts.skip(i as int)[0] == pieces@[i as int].of(line@));
        assert(texts.skip(i as int).drop_first() =~= texts.skip(i + 1));
        if let Some(n) = parse_number(line, pieces[i], u64::MAX) {
            return n;
        }
    }
    0
}

/// The value of a key on a line; none where the line does not hold the key.
fn key_value(line: &[char], key: &str) -> (value: Option<u64>)
    ensures
        match value {
            Some(n) => has_pattern(line@, key@) && n == value_behind(line@, key@),
            None => !has_pattern(line@, key@),
        },
{
    match find(line, key) {
        None => None,
        Some(at) => {
            assert(line@.len() == line.len());
            let behind: usize = at + key.unicode_len();
            Some(parse_meminfo_value(slice_subrange(line, behind, line.len())))
        },
    }
}

/// The total and the free memory that a text of the kernel gives, in kilobytes.
pub fn meminfo_kb(content: &str) -> (kb: (u64, u64))
    ensures
        kb.0 == value_of(content@, "MemTotal"@),
        kb.1 == value_of(content@, "MemFree"@),
{
    let text = chars_of(content);
    let whole = Stretch { from: 0, to: text.len() };
    assert(whole.of(text@) =~= content@);
    let lines = split(text.as_slice(), whole, '\n');
    let ghost texts = pieces_of(text@, lines@);
    let mut total_kb: u64 = 0;
    let mut free_kb: u64 = 0;
    assert(texts.take(0) =~= Seq::<Seq<char>>::empty());
    for i in 0..lines.len()
        invariant
            text@ == content@,
            all_within(text@, lines@),
            texts == pieces_of(text@, lines@),
            texts == split_on(content@, '\n'),
            total_kb == last_value(texts.take(i as int), "MemTotal"@),
            free_kb == last_value(texts.take(i as int), "MemFree"@),
    {
        let stretch = lines[i];
        let line = slice_subrange(text.as_slice(), stretch.from, stretch.to);
        proof {
            assert(texts.take(i + 1).drop_last() =~= texts.take(i as int));
            assert(texts.take(i + 1).last() == line@);
        }
        if let Some(kb) = key_value(line, "MemTotal") {
            total_kb = kb;
        }
        if let Some(kb) = key_value(line, "MemFree") {
            free_kb = kb;
        }
    }
    assert(texts.take(texts.len() as int) =~= texts);
    (total_kb, free_kb)
}

/// Where the kernel describes a NUMA node.
pub fn node_path(node: u32) -> (path: String)
    ensures
        path@ == "/sys/devices/system/node/node"@ + decimal(node as nat),
{
    let mut path = String::from_str("/sys/devices/system/node/node");
    push_decimal(&mut path, node as u64);
    path
}

/// Where the kernel describes the memory of a NUMA node.
pub fn meminfo_path(node: u32) -> (path: String)
    ensures
        path@ == "/sys/devices/system/node/node"@ + decimal(node as nat) + "/meminfo"@,
{
    let mut path = node_path(node);
    path.append("/meminfo");
    path
}

/// What stands in front of a key on its line makes no difference: the value is read from what
/// stands behind it.
pub proof fn law_value_stands_behind_the_key(front: Seq<char>, key: Seq<char>, back: Seq<char>)
    requires
        first_at(front + key + back, key, 0) == front.len(),
    ensures
        value_behind(front + key + back, key) == line_value(back),
{
    let line = front + key + back;
    assert(line.subrange((front.len() + key.len()) as int, line.len() as int) =~= back);
}

/// A text with white space in it splits into the pieces in front of it and those behind it; one
/// without is a single piece.
pub proof fn law_lines_split_at_white_space(s: Seq<char>, t: Seq<char>, c: char)
    requires
        is_space(c),
    ensures
        split_on_space(s + seq![c] + t) == split_on_space(s) + split_on_space(t),
    decreases t.len(),
{
    let whole = s + seq![c] + t;
    if t.len() == 0 {
        assert(whole.drop_last() =~= s);
        assert(t =~= Seq::<char>::empty());
        assert(split_on_space(whole) =~= split_on_space(s) + split_on_space(t));
    } else {
        let front = t.drop_last();
        law_lines_split_at_white_space(s, front, c);
        assert(whole.drop_last() =~= s + seq![c] + front);
        lemma_some_word(front);
        let a = split_on_space(s);
        let b = split_on_space(front);
        if is_space(t.last()) {
            assert((a + b).push(Seq::empty()) =~= a + b.push(Seq::empty()));
        } else {
            let last = b.last().push(t.last());
            assert((a + b).drop_last().push((a + b).last().push(t.last())) =~= a
                + b.drop_last().push(last));
        }
    }
}

/// A split has at least one piece.
proof fn lemma_some_word(s: Seq<char>)
    ensures
        split_on_space(s).len() >= 1,
    decreases s.len(),
{
    if s.len() > 0 {
        lemma_some_word(s.drop_last());
    }
}

/// Without white space a text is a single piece.
pub proof fn law_words_are_whole(s: Seq<char>)
    requires
        forall|i: int| 0 <= i < s.len() ==> !is_space(#[trigger] s[i]),
    ensures
        split_on_space(s) == seq![s],
    decreases s.len(),
{
    if s.len() == 0 {
        assert(s =~= Seq::<char>::empty());
    } else {
        let front = s.drop_last();
        assert(!is_space(s[s.len() - 1]));
        assert forall|i: int| 0 <= i < front.len() implies !is_space(#[trigger] front[i]) by {
            assert(front[i] == s[i]);
        }
        law_words_are_whole(front);
        assert(seq![front].drop_last() =~= Seq::<Seq<char>>::empty());
        assert(front.push(s.last()) =~= s);
        assert(split_on_space(s) =~= seq![s]);
    }
}

/// The first word that is a number gives the value, whatever stands behind it; where no word is a
/// number the value is zero.
pub proof fn law_the_first_number_counts(front: Seq<Seq<char>>, back: Seq<Seq<char>>, n: u64)
    requires
        forall|i: int|
            0 <= i < front.len() ==> number_of(#[trigger] front[i], u64::MAX as int) is None,
    ensures
        first_number(front) == 0,
        first_number(front + seq![decimal(n as nat)] + back) == n,
    decreases front.len(),
{
    let whole = front + seq![decimal(n as nat)] + back;
    if front.len() == 0 {
        law_decimal_reads_back(n as nat, u64::MAX as int);
        assert(whole[0] == decimal(n as nat));
    } else {
        let rest = front.drop_first();
        assert forall|i: int| 0 <= i < rest.len() implies number_of(
            #[trigger] rest[i],
            u64::MAX as int,
        ) is None by {
            assert(rest[i] == front[i + 1]);
        }
        law_the_first_number_counts(rest, back, n);
        assert(whole.drop_first() =~= rest + seq![decimal(n as nat)] + back);
        assert(number_of(front[0], u64::MAX as int) is None);
        assert(whole[0] == front[0]);
    }
}

/// A line that the kernel writes: something in front, the key, words that are no numbers, white
/// space, the number, white space, and a unit. Its value is the number.
pub proof fn law_kernel_lines_give_their_number(
    front: Seq<char>,
    key: Seq<char>,
    gap: Seq<char>,
    c: char,
    n: u64,
    d: char,
    unit: Seq<char>,
)
    requires
        is_space(c),
        is_space(d),
        forall|i: int|
            0 <= i < split_on_space(gap).len() ==> number_of(
                #[trigger] split_on_space(gap)[i],
                u64::MAX as int,
            ) is None,
        first_at(
            front + key + (gap + seq![c] + decimal(n as nat) + seq![d] + unit),
            key,
            0,
        ) == front.len(),
    ensures
        value_behind(
            front + key + (gap + seq![c] + decimal(n as nat) + seq![d] + unit),
            key,
        ) == n,
{
    let number = decimal(n as nat);
    let back = gap + seq![c] + number + seq![d] + unit;
    law_value_stands_behind_the_key(front, key, back);
    lemma_number_has_no_space(n as nat);
    law_words_are_whole(number);
    law_lines_split_at_white_space(gap, number + seq![d] + unit, c);
    law_lines_split_at_white_space(number, unit, d);
    assert(back =~= gap + seq![c] + (number + seq![d] + unit));
    assert(split_on_space(back) =~= split_on_space(gap) + seq![number] + split_on_space(unit));
    law_the_first_number_counts(split_on_space(gap), split_on_space(unit), n);
}

/// A decimal has no white space in it.
proof fn lemma_number_has_no_space(n: nat)
    ensures
        forall|i: int| 0 <= i < decimal(n).len() ==> !is_space(#[trigger] decimal(n)[i]),
    decreases n,
{
    law_decimals_end_with_their_last_digit(n);
    if n >= 10 {
        lemma_number_has_no_space(n / 10);
        assert forall|i: int| 0 <= i < decimal(n).len() implies !is_space(
            #[trigger] decimal(n)[i],
        ) by {
            if i < decimal(n).len() - 1 {
                assert(decimal(n)[i] == decimal(n).drop_last()[i]);
            }
        }
    }
}

/// The last line that holds the key decides; where none does the value is zero.
pub proof fn law_the_last_line_decides(
    front: Seq<Seq<char>>,
    line: Seq<char>,
    back: Seq<Seq<char>>,
    key: Seq<char>,
)
    requires
        forall|i: int| 0 <= i < back.len() ==> !has_pattern(#[trigger] back[i], key),
    ensures
        last_value(back, key) == 0,
        has_pattern(line, key) ==> last_value(front + seq![line] + back, key) == value_behind(
            line,
            key,
        ),
    decreases back.len(),
{
    let whole = front + seq![line] + back;
    if back.len() == 0 {
        assert(whole.last() == line);
    } else {
        let rest = back.drop_last();
        assert forall|i: int| 0 <= i < rest.len() implies !has_pattern(
            #[trigger] rest[i],
            key,
        ) by {
            assert(rest[i] == back[i]);
        }
        law_the_last_line_decides(front, line, rest, key);
        assert(whole.drop_last() =~= front + seq![line] + rest);
        assert(!has_pattern(back[back.len() - 1], key));
    }
}

/// Lines end with a line feed, and the value of a key is that of the lines of its text.
pub proof fn law_values_are_of_the_lines(content: Seq<char>, key: Seq<char>)
    ensures
        value_of(content, key) == last_value(split_on(content, '\n'), key),
{
}

} // verus!
