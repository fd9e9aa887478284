//! Small text building blocks: decimal numbers and character replacement.

use vstd::prelude::*;
use vstd::string::StringExecFns;
use crate::path::{chars_of, texts};

verus! {

/// The character of the decimal digit `d`.
pub open spec fn digit(d: int) -> char {
    if d == 0 {
        '0'
    } else if d == 1 {
        '1'
    } else if d == 2 {
        '2'
    } else if d == 3 {
        '3'
    } else if d == 4 {
        '4'
    } else if d == 5 {
        '5'
    } else if d == 6 {
        '6'
    } else if d == 7 {
        '7'
    } else if d == 8 {
        '8'
    } else {
        '9'
    }
}

/// The decimal digits of `n`, without leading zeros.
pub open spec fn digits(n: nat) -> Seq<char>
    decreases n,
{
    if n < 10 {
        seq![digit(n as int)]
    } else {
        digits(n / 10).push(digit((n % 10) as int))
    }
}

/// The decimal text of `n`, with a minus sign where it is negative.
pub open spec fn decimal(n: int) -> Seq<char> {
    if n < 0 {
        seq!['-'] + digits((-n) as nat)
    } else {
        digits(n as nat)
    }
}

/// `s` with the text `to` in the place of every `from`.
pub open spec fn replaced(s: Seq<char>, from: char, to: Seq<char>) -> Seq<char>
    decreases s.len(),
{
    if s.len() == 0 {
        Seq::empty()
    } else if s.last() == from {
        replaced(s.drop_last(), from, to) + to
    } else {
        replaced(s.drop_last(), from, to).push(s.last())
    }
}

fn digit_text(d: u64) -> (text: &'static str)
    requires
        d < 10,
    ensures
        text@ == seq![digit(d as int)],
{
    proof {
        reveal_strlit("0");
        reveal_strlit("1");
        reveal_strlit("2");
        reveal_strlit("3");
        reveal_strlit("4");
        reveal_strlit("5");
        reveal_strlit("6");
        reveal_strlit("7");
        reveal_strlit("8");
        reveal_strlit("9");
    }
    let text = if d == 0 {
        "0"
    } else if d == 1 {
        "1"
    } else if d == 2 {
        "2"
    } else if d == 3 {
        "3"
    } else if d == 4 {
        "4"
    } else if d == 5 {
        "5"
    } else if d == 6 {
        "6"
    } else if d == 7 {
        "7"
    } else if d == 8 {
        "8"
    } else {
        "9"
    };
    assert(text@ =~= seq![digit(d as int)]);
    text
}

/// The decimal text of `n`.
pub fn unsigned_text(n: u64) -> (text: String)
    ensures
        text@ == digits(n as nat),
{
    // The digits from the last to the first.
    let mut low: Vec<u64> = Vec::new();
    let mut m: u64 = n;
    let ghost mut tail: Seq<char> = Seq::empty();
    assert(digits(n as nat) + tail == digits(n as nat));
    while m >= 10
        invariant
            digits(n as nat) == digits(m as nat) + tail,
            tail.len() == low.len(),
            forall|j: int| 0 <= j < low.len() ==> low[j] < 10,
            forall|j: int| 0 <= j < low.len() ==> tail[j] == digit(low[low.len() - 1 - j] as int),
        decreases m,
    {
        let d = m % 10;
        proof {
            let next = seq![digit(d as int)] + tail;
            assert(digits((m / 10) as nat).push(digit(d as int)) + tail == digits((m / 10) as nat)
                + next);
            tail = next;
        }
        low.push(d);
        m = m / 10;
    }
    let mut text = String::new();
    text.append(digit_text(m));
    let mut k: usize = low.len();
    assert(tail.take(0) == Seq::<char>::empty());
    while k > 0
        invariant
            k <= low.len(),
            tail.len() == low.len(),
            forall|j: int| 0 <= j < low.len() ==> low[j] < 10,
            forall|j: int| 0 <= j < low.len() ==> tail[j] == digit(low[low.len() - 1 - j] as int),
            text@ == digits(m as nat) + tail.take(low.len() - k),
        decreases k,
    {
        k -= 1;
        let ghost at = low.len() - 1 - k;
        assert(tail.take(at + 1) == tail.take(at).push(tail[at]));
        text.append(digit_text(low[k]));
    }
    assert(tail.take(low.len() as int) == tail);
    text
}

/// The decimal text of `n`.
pub fn decimal_text(n: i64) -> (text: String)
    ensures
        text@ == decimal(n as int),
{
    if n < 0 {
        // -(n + 1) fits where -n may not.
        let size: u64 = (-(n + 1)) as u64 + 1;
        let mut text = String::new();
        proof {
            reveal_strlit("-");
        }
        text.append("-");
        text.append(unsigned_text(size).as_str());
        text
    } else {
        unsigned_text(n as u64)
    }
}

/// `s` with the text `to` in the place of every `from`.
pub fn replace_char(s: &str, from: char, to: &str) -> (out: String)
    ensures
        out@ == replaced(s@, from, to@),
{
    let n = s.unicode_len();
    let mut out = String::new();
    let mut i: usize = 0;
    assert(s@.take(0) == Seq::<char>::empty());
    while i < n
        invariant
            n == s@.len(),
            i <= n,
            out@ == replaced(s@.take(i as int), from, to@),
        decreases n - i,
    {
        proof {
            assert(s@.take(i + 1).drop_last() == s@.take(i as int));
            assert(s@.take(i + 1).last() == s@[i as int]);
        }
        if s.get_char(i) == from {
            out.append(to);
        } else {
            let one = s.substring_char(i, i + 1);
            assert(one@ == seq![s@[i as int]]);
            out.append(one);
        }
        i += 1;
    }
    assert(s@.take(n as int) == s@);
    out
}

/// Whether `c` is one of the digits `0` to `9`.
pub open spec fn is_digit(c: char) -> bool {
    48 <= c as u32 <= 57
}

pub open spec fn all_digits(s: Seq<char>) -> bool {
    forall|i: int| 0 <= i < s.len() ==> is_digit(#[trigger] s[i])
}

/// The number that the digits `s` write.
pub open spec fn value(s: Seq<char>) -> int
    decreases s.len(),
{
    if s.len() == 0 {
        0
    } else {
        value(s.drop_last()) * 10 + (s.last() as u32 - 48)
    }
}

/// The number that `s` writes without a sign or behind a plus sign.
pub open spec fn unsigned_of(s: Seq<char>) -> Option<int> {
    let body = if s.len() > 0 && s[0] == '+' {
        s.drop_first()
    } else {
        s
    };
    if body.len() > 0 && all_digits(body) {
        Some(value(body))
    } else {
        None
    }
}

/// The number that `s` writes: digits, with a plus or minus sign before
/// them or none.
pub open spec fn signed_of(s: Seq<char>) -> Option<int> {
    if s.len() > 0 && s[0] == '-' {
        let body = s.drop_first();
        if body.len() > 0 && all_digits(body) {
            Some(-value(body))
        } else {
            None
        }
    } else {
        unsigned_of(s)
    }
}

/// What `s` gives as an `i64`: its number, where it writes one that fits.
pub open spec fn i64_of(s: Seq<char>) -> Option<i64> {
    match signed_of(s) {
        Some(v) => if i64::MIN <= v <= i64::MAX {
            Some(v as i64)
        } else {
            None
        },
        None => None,
    }
}

/// What `s` gives as a `usize`: its number, where it writes one without a
/// minus sign that fits.
pub open spec fn usize_of(s: Seq<char>) -> Option<usize> {
    match unsigned_of(s) {
        Some(v) => if v <= usize::MAX {
            Some(v as usize)
        } else {
            None
        },
        None => None,
    }
}

/// The number of the first `k` digits is at most the number of all.
pub proof fn lemma_value_grows(s: Seq<char>, k: int)
    requires
        all_digits(s),
        0 <= k <= s.len(),
    ensures
        0 <= value(s.take(k)) <= value(s),
    decreases s.len() - k,
{
    if k == s.len() {
        assert(s.take(k) == s);
        lemma_value_nonnegative(s);
    } else {
        let t = s.drop_last();
        assert(all_digits(t)) by {
            assert forall|i: int| 0 <= i < t.len() implies is_digit(#[trigger] t[i]) by {
                assert(t[i] == s[i]);
            }
        }
        lemma_value_grows(t, k);
        assert(t.take(k) == s.take(k));
        lemma_value_nonnegative(t);
        assert(is_digit(s[s.len() - 1]));
    }
}

pub proof fn lemma_value_nonnegative(s: Seq<char>)
    requires
        all_digits(s),
    ensures
        value(s) >= 0,
    decreases s.len(),
{
    if s.len() > 0 {
        let t = s.drop_last();
        assert forall|i: int| 0 <= i < t.len() implies is_digit(#[trigger] t[i]) by {
            assert(t[i] == s[i]);
        }
        lemma_value_nonnegative(t);
        assert(is_digit(s[s.len() - 1]));
    }
}

/// The number that the digits `chars[from..]` write, where there are some,
/// all are digits and the number is at most `limit`.
fn magnitude(chars: &Vec<char>, from: usize, limit: u64) -> (out: Option<u64>)
    requires
        from <= chars.len(),
    ensures
        match out {
            Some(v) => {
                &&& from < chars.len()
                &&& all_digits(chars@.skip(from as int))
                &&& value(chars@.skip(from as int)) == v
                &&& v <= limit
            },
            None => !(from < chars.len() && all_digits(chars@.skip(from as int)) && value(
                chars@.skip(from as int),
            ) <= limit),
        },
{
    let n = chars.len();
    if from >= n {
        return None;
    }
    let ghost body = chars@.skip(from as int);
    let mut acc: u64 = 0;
    let mut k: usize = from;
    assert(body.take(0) == Seq::<char>::empty());
    while k < n
        invariant
            n == chars.len(),
            from <= k <= n,
            body == chars@.skip(from as int),
            all_digits(body.take(k - from)),
            acc == value(body.take(k - from)),
            acc <= limit,
        decreases n - k,
    {
        let c = chars[k] as u32;
        let ghost now = body.take(k - from + 1);
        proof {
            assert(now.drop_last() == body.take(k - from));
            assert(now.last() == chars[k as int]);
        }
        if c < 48 || c > 57 {
            assert(!is_digit(body[k - from]));
            return None;
        }
        let next: u128 = acc as u128 * 10 + (c - 48) as u128;
        proof {
            assert(all_digits(now)) by {
                assert forall|i: int| 0 <= i < now.len() implies is_digit(#[trigger] now[i]) by {
                    if i < k - from {
                        assert(now[i] == body.take(k - from)[i]);
                    }
                }
            }
        }
        if next > limit as u128 {
            proof {
                if all_digits(body) {
                    lemma_value_grows(body, k - from + 1);
                }
            }
            return None;
        }
        acc = next as u64;
        k += 1;
    }
    assert(body.take(n - from) == body);
    Some(acc)
}

/// Reads `text` as an `i64`.
pub fn parse_i64(text: &str) -> (out: Option<i64>)
    ensures
        out == i64_of(text@),
{
    let chars = chars_of(text);
    let n = chars.len();
    if n > 0 && chars[0] == '-' {
        assert(chars@.skip(1) == text@.drop_first());
        match magnitude(&chars, 1, 0x8000_0000_0000_0000) {
            Some(v) => {
                if v == 0x8000_0000_0000_0000 {
                    Some(i64::MIN)
                } else {
                    Some(-(v as i64))
                }
            },
            None => {
                proof {
                    let body = text@.drop_first();
                    if body.len() > 0 && all_digits(body) {
                        lemma_value_nonnegative(body);
                    }
                }
                None
            },
        }
    } else {
        let from: usize = if n > 0 && chars[0] == '+' {
            1
        } else {
            0
        };
        proof {
            if from == 1 {
                assert(chars@.skip(1) == text@.drop_first());
            } else {
                assert(chars@.skip(0) == text@);
            }
        }
        match magnitude(&chars, from, 0x7fff_ffff_ffff_ffff) {
            Some(v) => Some(v as i64),
            None => None,
        }
    }
}

/// Reads `text` as a `usize`.
pub fn parse_usize(text: &str) -> (out: Option<usize>)
    ensures
        out == usize_of(text@),
{
    let chars = chars_of(text);
    let n = chars.len();
    let from: usize = if n > 0 && chars[0] == '+' {
        1
    } else {
        0
    };
    proof {
        if from == 1 {
            assert(chars@.skip(1) == text@.drop_first());
        } else {
            assert(chars@.skip(0) == text@);
        }
    }
    match magnitude(&chars, from, usize::MAX as u64) {
        Some(v) => Some(v as usize),
        None => None,
    }
}

/// Whether `c` ends a line.
pub open spec fn is_newline(c: char) -> bool {
    c == '\n'
}

/// Length of the longest prefix of `s` that holds no newline.
pub open spec fn line_len(s: Seq<char>) -> nat
    decreases s.len(),
{
    if s.len() == 0 || is_newline(s[0]) {
        0
    } else {
        1 + line_len(s.drop_first())
    }
}

/// `line` without the carriage return at its end, if it has one.
pub open spec fn without_cr(line: Seq<char>) -> Seq<char> {
    if line.len() > 0 && line.last() == '\r' {
        line.drop_last()
    } else {
        line
    }
}

/// The lines of `s`: what stands between its newlines, each without the
/// carriage return before the newline. A newline at the very end starts no
/// further line.
pub open spec fn lines_of(s: Seq<char>) -> Seq<Seq<char>>
    decreases s.len(),
    via lines_of_decreases
{
    if s.len() == 0 {
        Seq::empty()
    } else {
        let n = line_len(s) as int;
        if n == s.len() {
            seq![s]
        } else {
            seq![without_cr(s.subrange(0, n))] + lines_of(s.subrange(n + 1, s.len() as int))
        }
    }
}

#[via_fn]
proof fn lines_of_decreases(s: Seq<char>) {
    lemma_line_len(s);
}

pub proof fn lemma_line_len(s: Seq<char>)
    ensures
        line_len(s) <= s.len(),
    decreases s.len(),
{
    if s.len() > 0 && !is_newline(s[0]) {
        lemma_line_len(s.drop_first());
    }
}

/// A run of `n` characters without a newline that ends at a newline or at
/// the end of the text is the first line of the text.
pub proof fn lemma_line_len_is(s: Seq<char>, n: int)
    requires
        0 <= n <= s.len(),
        forall|i: int| 0 <= i < n ==> !is_newline(#[trigger] s[i]),
        n < s.len() ==> is_newline(s[n]),
    ensures
        line_len(s) == n,
    decreases n,
{
    if n > 0 {
        let t = s.drop_first();
        assert forall|i: int| 0 <= i < n - 1 implies !is_newline(#[trigger] t[i]) by {
            assert(t[i] == s[i + 1]);
        }
        lemma_line_len_is(t, n - 1);
    }
}

/// The lines of `text`.
pub fn lines(text: &str) -> (out: Vec<String>)
    ensures
        texts(out@) == lines_of(text@),
{
    let chars = chars_of(text);
    let n = chars.len();
    let mut out: Vec<String> = Vec::new();
    let mut start: usize = 0;
    let mut i: usize = 0;
    assert(text@.subrange(0, n as int) == text@);
    assert(texts(out@) + lines_of(text@) == lines_of(text@));
    while i < n
        invariant
            chars@ == text@,
            n == chars.len(),
            start <= i <= n,
            forall|k: int| start <= k < i ==> !is_newline(#[trigger] text@[k]),
            lines_of(text@) == texts(out@) + lines_of(text@.subrange(start as int, n as int)),
        decreases n - i,
    {
        if chars[i] == '\n' {
            let ghost rest = text@.subrange(start as int, n as int);
            let ghost next = text@.subrange(i + 1, n as int);
            let end: usize = if i > start && chars[i - 1] == '\r' {
                i - 1
            } else {
                i
            };
            let line = text.substring_char(start, end).to_owned();
            proof {
                assert forall|k: int| 0 <= k < i - start implies !is_newline(#[trigger] rest[k]) by {
                    assert(rest[k] == text@[start + k]);
                }
                lemma_line_len_is(rest, i - start);
                let raw = rest.subrange(0, i - start);
                assert(raw == text@.subrange(start as int, i as int));
                assert(without_cr(raw) == line@);
                assert(rest.subrange(i - start + 1, rest.len() as int) == next);
                assert(texts(out@.push(line)) == texts(out@) + seq![line@]);
                assert(texts(out@) + (seq![line@] + lines_of(next)) == (texts(out@) + seq![line@])
                    + lines_of(next));
            }
            out.push(line);
            start = i + 1;
        }
        i += 1;
    }
    let ghost rest = text@.subrange(start as int, n as int);
    if start < n {
        let line = text.substring_char(start, n).to_owned();
        proof {
            assert forall|k: int| 0 <= k < n - start implies !is_newline(#[trigger] rest[k]) by {
                assert(rest[k] == text@[start + k]);
            }
            lemma_line_len_is(rest, n - start);
            assert(rest == line@);
            assert(texts(out@.push(line)) == texts(out@) + seq![line@]);
        }
        out.push(line);
    } else {
        assert(rest.len() == 0);
        assert(texts(out@) + Seq::<Seq<char>>::empty() == texts(out@));
    }
    out
}

} // verus!
