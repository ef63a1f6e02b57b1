//! Calibration-line digit scanning: the first and last digit of a line,
//! either as an ASCII digit alone or also as one of the spelled-out words
//! `one` through `nine`.

use vstd::prelude::*;

verus! {

/// The value of an ASCII digit character, if it is one.
pub open spec fn spec_digit(c: char) -> Option<u32> {
    if c == '0' {
        Some(0u32)
    } else if c == '1' {
        Some(1u32)
    } else if c == '2' {
        Some(2u32)
    } else if c == '3' {
        Some(3u32)
    } else if c == '4' {
        Some(4u32)
    } else if c == '5' {
        Some(5u32)
    } else if c == '6' {
        Some(6u32)
    } else if c == '7' {
        Some(7u32)
    } else if c == '8' {
        Some(8u32)
    } else if c == '9' {
        Some(9u32)
    } else {
        None
    }
}

/// Executable form of `spec_digit`.
fn char_digit(c: char) -> (r: Option<u32>)
    ensures
        r == spec_digit(c),
{
    if c == '0' {
        Some(0)
    } else if c == '1' {
        Some(1)
    } else if c == '2' {
        Some(2)
    } else if c == '3' {
        Some(3)
    } else if c == '4' {
        Some(4)
    } else if c == '5' {
        Some(5)
    } else if c == '6' {
        Some(6)
    } else if c == '7' {
        Some(7)
    } else if c == '8' {
        Some(8)
    } else if c == '9' {
        Some(9)
    } else {
        None
    }
}

/// True when the word `w` is a prefix of `s`.
pub open spec fn starts_with(s: Seq<char>, w: Seq<char>) -> bool {
    w.len() <= s.len() && s.take(w.len() as int) == w
}

/// The value of a spelled-out digit word at the start of `s`, if any; the
/// words are tried in counting order.
pub open spec fn word_digit(s: Seq<char>) -> Option<u32> {
    if starts_with(s, seq!['o', 'n', 'e']) {
        Some(1u32)
    } else if starts_with(s, seq!['t', 'w', 'o']) {
        Some(2u32)
    } else if starts_with(s, seq!['t', 'h', 'r', 'e', 'e']) {
        Some(3u32)
    } else if starts_with(s, seq!['f', 'o', 'u', 'r']) {
        Some(4u32)
    } else if starts_with(s, seq!['f', 'i', 'v', 'e']) {
        Some(5u32)
    } else if starts_with(s, seq!['s', 'i', 'x']) {
        Some(6u32)
    } else if starts_with(s, seq!['s', 'e', 'v', 'e', 'n']) {
        Some(7u32)
    } else if starts_with(s, seq!['e', 'i', 'g', 'h', 't']) {
        Some(8u32)
    } else if starts_with(s, seq!['n', 'i', 'n', 'e']) {
        Some(9u32)
    } else {
        None
    }
}

/// The digit readable at the start of `s`: an ASCII digit first, then a
/// spelled-out word.
pub open spec fn digit_at(s: Seq<char>) -> Option<u32> {
    if s.len() == 0 {
        None
    } else if spec_digit(s[0]) is Some {
        spec_digit(s[0])
    } else {
        word_digit(s)
    }
}

/// The first position of `s`, scanning left to right, where a digit can be
/// read, and its value.
pub open spec fn first_digit(s: Seq<char>) -> Option<u32>
    decreases s.len(),
{
    if s.len() == 0 {
        None
    } else if digit_at(s) is Some {
        digit_at(s)
    } else {
        first_digit(s.drop_first())
    }
}

/// The value at the last position of the first `k` positions of `s`,
/// scanning right to left, where a digit can be read.
pub open spec fn last_digit(s: Seq<char>, k: int) -> Option<u32>
    decreases k,
{
    if k <= 0 {
        None
    } else if digit_at(s.skip(k - 1)) is Some {
        digit_at(s.skip(k - 1))
    } else {
        last_digit(s, k - 1)
    }
}

/// Reads a digit at position `start`: an ASCII digit, or a spelled-out word
/// beginning there.
pub fn try_parse_digit(s: &[char], start: usize) -> (r: Option<u32>)
    requires
        start < s@.len(),
    ensures
        r == digit_at(s@.skip(start as int)),
{
    let ghost t = s@.skip(start as int);
    let n = s.len();
    let c = s[start];
    proof {
        assert(t[0] == s@[start as int]);
        assert(t.len() == s@.len() - start);
    }
    let d = char_digit(c);
    if d.is_some() {
        return d;
    }
    let left = n - start;
    if left >= 3 && s[start] == 'o' && s[start + 1] == 'n' && s[start + 2] == 'e' {
        proof {
            assert(t.take(3) =~= seq!['o', 'n', 'e']);
        }
        return Some(1);
    }
    if left >= 3 && s[start] == 't' && s[start + 1] == 'w' && s[start + 2] == 'o' {
        proof {
            assert(t.take(3) =~= seq!['t', 'w', 'o']);
            assert(!starts_with(t, seq!['o', 'n', 'e']));
        }
        return Some(2);
    }
    if left >= 5 && s[start] == 't' && s[start + 1] == 'h' && s[start + 2] == 'r' && s[start + 3]
        == 'e' && s[start + 4] == 'e' {
        proof {
            assert(t.take(5) =~= seq!['t', 'h', 'r', 'e', 'e']);
        }
        return Some(3);
    }
    if left >= 4 && s[start] == 'f' && s[start + 1] == 'o' && s[start + 2] == 'u' && s[start + 3]
        == 'r' {
        proof {
            assert(t.take(4) =~= seq!['f', 'o', 'u', 'r']);
        }
        return Some(4);
    }
    if left >= 4 && s[start] == 'f' && s[start + 1] == 'i' && s[start + 2] == 'v' && s[start + 3]
        == 'e' {
        proof {
            assert(t.take(4) =~= seq!['f', 'i', 'v', 'e']);
        }
        return Some(5);
    }
    if left >= 3 && s[start] == 's' && s[start + 1] == 'i' && s[start + 2] == 'x' {
        proof {
            assert(t.take(3) =~= seq!['s', 'i', 'x']);
        }
        return Some(6);
    }
    if left >= 5 && s[start] == 's' && s[start + 1] == 'e' && s[start + 2] == 'v' && s[start + 3]
        == 'e' && s[start + 4] == 'n' {
        proof {
            assert(t.take(5) =~= seq!['s', 'e', 'v', 'e', 'n']);
        }
        return Some(7);
    }
    if left >= 5 && s[start] == 'e' && s[start + 1] == 'i' && s[start + 2] == 'g' && s[start + 3]
        == 'h' && s[start + 4] == 't' {
        proof {
            assert(t.take(5) =~= seq!['e', 'i', 'g', 'h', 't']);
        }
        return Some(8);
    }
    if left >= 4 && s[start] == 'n' && s[start + 1] == 'i' && s[start + 2] == 'n' && s[start + 3]
        == 'e' {
        proof {
            assert(t.take(4) =~= seq!['n', 'i', 'n', 'e']);
        }
        return Some(9);
    }
    proof {
        lemma_no_word(t);
    }
    None
}

/// When none of the nine word checks on the concrete characters succeeds,
/// `word_digit` returns nothing.
proof fn lemma_no_word(t: Seq<char>)
    requires
        !(t.len() >= 3 && t[0] == 'o' && t[1] == 'n' && t[2] == 'e'),
        !(t.len() >= 3 && t[0] == 't' && t[1] == 'w' && t[2] == 'o'),
        !(t.len() >= 5 && t[0] == 't' && t[1] == 'h' && t[2] == 'r' && t[3] == 'e' && t[4] == 'e'),
        !(t.len() >= 4 && t[0] == 'f' && t[1] == 'o' && t[2] == 'u' && t[3] == 'r'),
        !(t.len() >= 4 && t[0] == 'f' && t[1] == 'i' && t[2] == 'v' && t[3] == 'e'),
        !(t.len() >= 3 && t[0] == 's' && t[1] == 'i' && t[2] == 'x'),
        !(t.len() >= 5 && t[0] == 's' && t[1] == 'e' && t[2] == 'v' && t[3] == 'e' && t[4] == 'n'),
        !(t.len() >= 5 && t[0] == 'e' && t[1] == 'i' && t[2] == 'g' && t[3] == 'h' && t[4] == 't'),
        !(t.len() >= 4 && t[0] == 'n' && t[1] == 'i' && t[2] == 'n' && t[3] == 'e'),
    ensures
        word_digit(t) is None,
{
    if starts_with(t, seq!['o', 'n', 'e']) {
        assert(t[0] == t.take(3)[0]);
        assert(t[1] == t.take(3)[1]);
        assert(t[2] == t.take(3)[2]);
    }
    if starts_with(t, seq!['t', 'w', 'o']) {
        assert(t[0] == t.take(3)[0]);
        assert(t[1] == t.take(3)[1]);
        assert(t[2] == t.take(3)[2]);
    }
    if starts_with(t, seq!['t', 'h', 'r', 'e', 'e']) {
        assert(t[0] == t.take(5)[0]);
        assert(t[1] == t.take(5)[1]);
        assert(t[2] == t.take(5)[2]);
        assert(t[3] == t.take(5)[3]);
        assert(t[4] == t.take(5)[4]);
    }
    if starts_with(t, seq!['f', 'o', 'u', 'r']) {
        assert(t[0] == t.take(4)[0]);
        assert(t[1] == t.take(4)[1]);
        assert(t[2] == t.take(4)[2]);
        assert(t[3] == t.take(4)[3]);
    }
    if starts_with(t, seq!['f', 'i', 'v', 'e']) {
        assert(t[0] == t.take(4)[0]);
        assert(t[1] == t.take(4)[1]);
        assert(t[2] == t.take(4)[2]);
        assert(t[3] == t.take(4)[3]);
    }
    if starts_with(t, seq!['s', 'i', 'x']) {
        assert(t[0] == t.take(3)[0]);
        assert(t[1] == t.take(3)[1]);
        assert(t[2] == t.take(3)[2]);
    }
    if starts_with(t, seq!['s', 'e', 'v', 'e', 'n']) {
        assert(t[0] == t.take(5)[0]);
        assert(t[1] == t.take(5)[1]);
        assert(t[2] == t.take(5)[2]);
        assert(t[3] == t.take(5)[3]);
        assert(t[4] == t.take(5)[4]);
    }
    if starts_with(t, seq!['e', 'i', 'g', 'h', 't']) {
        assert(t[0] == t.take(5)[0]);
        assert(t[1] == t.take(5)[1]);
        assert(t[2] == t.take(5)[2]);
        assert(t[3] == t.take(5)[3]);
        assert(t[4] == t.take(5)[4]);
    }
    if starts_with(t, seq!['n', 'i', 'n', 'e']) {
        assert(t[0] == t.take(4)[0]);
        assert(t[1] == t.take(4)[1]);
        assert(t[2] == t.take(4)[2]);
        assert(t[3] == t.take(4)[3]);
    }
}

/// The value of the first readable digit of the line. The line must hold
/// one.
pub fn find_first_digit(s: &[char]) -> (r: u32)
    requires
        first_digit(s@) is Some,
    ensures
        Some(r) == first_digit(s@),
{
    let mut i: usize = 0;
    proof {
        assert(s@.skip(0) =~= s@);
    }
    while i < s.len()
        invariant
            0 <= i <= s@.len(),
            first_digit(s@) is Some,
            first_digit(s@) == first_digit(s@.skip(i as int)),
        decreases s@.len() - i,
    {
        let d = try_parse_digit(s, i);
        match d {
            Some(v) => {
                return v;
            },
            None => {
                proof {
                    let u = s@.skip(i as int);
                    assert(u.drop_first() =~= s@.skip(i + 1));
                    assert(first_digit(u) == first_digit(s@.skip(i + 1)));
                }
                i = i + 1;
            },
        }
    }
    proof {
        assert(s@.skip(s@.len() as int) =~= Seq::<char>::empty());
        assert(first_digit(Seq::<char>::empty()) is None);
        assert(false);
    }
    0
}

/// The value of the last readable digit of the line. The line must hold
/// one.
pub fn find_last_digit(s: &[char]) -> (r: u32)
    requires
        last_digit(s@, s@.len() as int) is Some,
    ensures
        Some(r) == last_digit(s@, s@.len() as int),
{
    let mut i: usize = s.len();
    while i > 0
        invariant
            0 <= i <= s@.len(),
            last_digit(s@, s@.len() as int) is Some,
            last_digit(s@, s@.len() as int) == last_digit(s@, i as int),
        decreases i,
    {
        let d = try_parse_digit(s, i - 1);
        match d {
            Some(v) => {
                return v;
            },
            None => {
                i = i - 1;
            },
        }
    }
    proof {
        assert(last_digit(s@, 0) is None);
        assert(false);
    }
    0
}

/// The first character of the line that is an ASCII digit, as a value.
pub open spec fn first_char_digit(s: Seq<char>) -> Option<u32>
    decreases s.len(),
{
    if s.len() == 0 {
        None
    } else if spec_digit(s[0]) is Some {
        spec_digit(s[0])
    } else {
        first_char_digit(s.drop_first())
    }
}

/// The last character among the first `k` of the line that is an ASCII
/// digit, as a value.
pub open spec fn last_char_digit(s: Seq<char>, k: int) -> Option<u32>
    decreases k,
{
    if k <= 0 {
        None
    } else if spec_digit(s[k - 1]) is Some {
        spec_digit(s[k - 1])
    } else {
        last_char_digit(s, k - 1)
    }
}

/// The two-digit value read from the first and last ASCII digit characters
/// of the line. The line must hold at least one digit character.
pub fn parse_line_part1(line: &[char]) -> (r: u32)
    requires
        first_char_digit(line@) is Some,
        last_char_digit(line@, line@.len() as int) is Some,
    ensures
        r == first_char_digit(line@).unwrap() * 10 + last_char_digit(
            line@,
            line@.len() as int,
        ).unwrap(),
{
    let n = line.len();
    let mut first: u32 = 0;
    let mut i: usize = 0;
    proof {
        assert(line@.skip(0) =~= line@);
    }
    loop
        invariant_except_break
            0 <= i <= line@.len(),
            first_char_digit(line@) is Some,
            first_char_digit(line@) == first_char_digit(line@.skip(i as int)),
            n == line@.len(),
        ensures
            Some(first) == first_char_digit(line@),
            0 <= first <= 9,
        decreases line@.len() - i,
    {
        proof {
            if i as int == line@.len() {
                assert(line@.skip(i as int) =~= Seq::<char>::empty());
                assert(first_char_digit(Seq::<char>::empty()) is None);
                assert(false);
            }
        }
        match char_digit(line[i]) {
            Some(v) => {
                proof {
                    assert(line@.skip(i as int)[0] == line@[i as int]);
                }
                first = v;
                break ;
            },
            None => {},
        }
        proof {
            let u = line@.skip(i as int);
            assert(u[0] == line@[i as int]);
            assert(u.drop_first() =~= line@.skip(i + 1));
        }
        i = i + 1;
    }
    let mut last: u32 = 0;
    let mut j: usize = n;
    loop
        invariant_except_break
            0 <= j <= line@.len(),
            last_char_digit(line@, line@.len() as int) is Some,
            last_char_digit(line@, line@.len() as int) == last_char_digit(line@, j as int),
            n == line@.len(),
        ensures
            Some(last) == last_char_digit(line@, line@.len() as int),
            0 <= last <= 9,
        decreases j,
    {
        proof {
            if j == 0 {
                assert(last_char_digit(line@, 0) is None);
                assert(false);
            }
        }
        match char_digit(line[j - 1]) {
            Some(v) => {
                last = v;
                break ;
            },
            None => {},
        }
        j = j - 1;
    }
    first * 10 + last
}

/// The two-digit value read from the first and last digits of the line,
/// words included. The line must hold at least one readable digit.
pub fn parse_line_part2(line: &[char]) -> (r: u32)
    requires
        first_digit(line@) is Some,
        last_digit(line@, line@.len() as int) is Some,
    ensures
        r == first_digit(line@).unwrap() * 10 + last_digit(line@, line@.len() as int).unwrap(),
{
    let first = find_first_digit(line);
    let last = find_last_digit(line);
    proof {
        lemma_first_digit_bound(line@);
        lemma_last_digit_bound(line@, line@.len() as int);
    }
    first * 10 + last
}

/// A readable digit is at most nine.
proof fn lemma_digit_at_bound(s: Seq<char>)
    requires
        digit_at(s) is Some,
    ensures
        0 <= digit_at(s).unwrap() <= 9,
{
}

/// The first readable digit is at most nine.
proof fn lemma_first_digit_bound(s: Seq<char>)
    requires
        first_digit(s) is Some,
    ensures
        0 <= first_digit(s).unwrap() <= 9,
    decreases s.len(),
{
    if s.len() > 0 {
        if digit_at(s) is Some {
            lemma_digit_at_bound(s);
        } else {
            lemma_first_digit_bound(s.drop_first());
        }
    }
}

/// The last readable digit is at most nine.
proof fn lemma_last_digit_bound(s: Seq<char>, k: int)
    requires
        last_digit(s, k) is Some,
    ensures
        0 <= last_digit(s, k).unwrap() <= 9,
    decreases k,
{
    if k > 0 {
        if digit_at(s.skip(k - 1)) is Some {
            lemma_digit_at_bound(s.skip(k - 1));
        } else {
            lemma_last_digit_bound(s, k - 1);
        }
    }
}

} // verus!
