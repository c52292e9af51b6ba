//! Character-level helpers shared by the line protocols and command parsers.

use vstd::prelude::*;
use vstd::string::*;

verus! {

/// Position of the first `c` in `s`, or `s.len()` when there is none.
pub open spec fn position_of(s: Seq<char>, c: char) -> int
    decreases s.len(),
{
    if s.len() == 0 || s[0] == c {
        0
    } else {
        1 + position_of(s.drop_first(), c)
    }
}

/// What stands before the first `c` in `s`: all of `s` when there is none.
pub open spec fn before_first(s: Seq<char>, c: char) -> Seq<char> {
    s.take(position_of(s, c))
}

/// What stands after the first `c` in `s`, if there is one.
pub open spec fn after_first(s: Seq<char>, c: char) -> Option<Seq<char>> {
    if s.contains(c) {
        Some(s.skip(position_of(s, c) + 1))
    } else {
        None
    }
}

/// `position_of` is the least index that holds `c`.
pub proof fn lemma_position_of(s: Seq<char>, c: char)
    ensures
        0 <= position_of(s, c) <= s.len(),
        forall|i: int| 0 <= i < position_of(s, c) ==> s[i] != c,
        position_of(s, c) < s.len() ==> s[position_of(s, c)] == c,
        s.contains(c) <==> position_of(s, c) < s.len(),
    decreases s.len(),
{
    if s.len() > 0 && s[0] != c {
        let t = s.drop_first();
        lemma_position_of(t, c);
        let p = position_of(s, c);
        assert forall|i: int| 0 <= i < p implies s[i] != c by {
            if i > 0 {
                assert(t[i - 1] == s[i]);
            }
        }
        if p < s.len() {
            assert(t[p - 1] == s[p]);
        }
        if s.contains(c) {
            let k = choose|k: int| 0 <= k < s.len() && s[k] == c;
            assert(t[k - 1] == c);
        }
    }
}

/// The least index that holds `c` is `position_of`.
pub proof fn lemma_position_is(s: Seq<char>, c: char, p: int)
    requires
        0 <= p <= s.len(),
        forall|i: int| 0 <= i < p ==> s[i] != c,
        p < s.len() ==> s[p] == c,
    ensures
        position_of(s, c) == p,
        s.contains(c) <==> p < s.len(),
{
    lemma_position_of(s, c);
    let q = position_of(s, c);
    if q < p {
        assert(s[q] != c);
    }
    if p < q {
        assert(s[p] != c);
    }
}

/// The characters of `s`, one by one.
pub fn chars_of(s: &str) -> (r: Vec<char>)
    ensures
        r@ == s@,
{
    let mut out: Vec<char> = Vec::new();
    for c in it: s.chars()
        invariant
            it.seq() == s@,
            out@ == s@.take(it.index() as int),
    {
        out.push(c);
        assert(out@ =~= s@.take(it.index() + 1));
    }
    assert(s@.take(s@.len() as int) =~= s@);
    out
}

/// Splits `s` at its first `c`; the second part is absent when `s` holds no `c`.
pub fn split_once_at<'a>(s: &'a str, c: char) -> (r: (&'a str, Option<&'a str>))
    ensures
        r.0@ == before_first(s@, c),
        match r.1 {
            Some(t) => after_first(s@, c) == Some(t@),
            None => after_first(s@, c) is None,
        },
{
    let cs: Vec<char> = chars_of(s);
    let mut i: usize = 0;
    while i < cs.len() && cs[i] != c
        invariant
            i <= cs@.len(),
            cs@ == s@,
            forall|k: int| 0 <= k < i ==> cs@[k] != c,
        decreases cs@.len() - i,
    {
        i += 1;
    }
    proof {
        lemma_position_is(s@, c, i as int);
    }
    if i == cs.len() {
        assert(s@.take(i as int) =~= s@);
        (s, None)
    } else {
        (s.substring_char(0, i), Some(s.substring_char(i + 1, cs.len())))
    }
}

/// Whether two strings hold the same characters.
pub fn same_text(a: &str, b: &str) -> (r: bool)
    ensures
        r == (a@ == b@),
{
    let x: Vec<char> = chars_of(a);
    let y: Vec<char> = chars_of(b);
    if x.len() != y.len() {
        return false;
    }
    let mut i: usize = 0;
    while i < x.len()
        invariant
            i <= x@.len(),
            x@.len() == y@.len(),
            forall|k: int| 0 <= k < i ==> x@[k] == y@[k],
            x@ == a@,
            y@ == b@,
        decreases x@.len() - i,
    {
        if x[i] != y[i] {
            assert(x@[i as int] != y@[i as int]);
            return false;
        }
        i += 1;
    }
    assert(x@ =~= y@);
    true
}

/// The contents of a list of strings.
pub open spec fn texts(v: Seq<String>) -> Seq<Seq<char>> {
    v.map_values(|s: String| s@)
}

/// Whether some string of `list` holds the characters of `s`.
pub fn has_text(list: &Vec<String>, s: &str) -> (r: bool)
    ensures
        r == texts(list@).contains(s@),
{
    let mut i: usize = 0;
    while i < list.len()
        invariant
            i <= list@.len(),
            forall|k: int| 0 <= k < i ==> list@[k]@ != s@,
        decreases list@.len() - i,
    {
        if same_text(list[i].as_str(), s) {
            assert(texts(list@)[i as int] == s@);
            return true;
        }
        i += 1;
    }
    assert forall|k: int| 0 <= k < texts(list@).len() implies texts(list@)[k] != s@ by {
        assert(texts(list@)[k] == list@[k]@);
    }
    false
}

// Decimal numbers.

/// Whether `c` is one of the ten ASCII digits.
pub open spec fn is_digit(c: char) -> bool {
    '0' <= c && c <= '9'
}

/// The value of an ASCII digit.
pub open spec fn digit_value(c: char) -> int {
    c as int - '0' as int
}

/// The number that a sequence of digits writes in base ten.
pub open spec fn decimal(s: Seq<char>) -> int
    decreases s.len(),
{
    if s.len() == 0 {
        0
    } else {
        decimal(s.drop_last()) * 10 + digit_value(s.last())
    }
}

/// Whether `s` is made of ASCII digits only.
pub open spec fn all_digits(s: Seq<char>) -> bool {
    forall|i: int| 0 <= i < s.len() ==> is_digit(#[trigger] s[i])
}

/// The digits of an unsigned number: an optional `+` in front of them is dropped.
pub open spec fn without_plus(s: Seq<char>) -> Seq<char> {
    if s.len() > 0 && s[0] == '+' {
        s.skip(1)
    } else {
        s
    }
}

/// The unsigned number that `s` writes, if it writes one that is at most `max`.
pub open spec fn parsed_unsigned(s: Seq<char>, max: int) -> Option<int> {
    let d = without_plus(s);
    if d.len() > 0 && all_digits(d) && decimal(d) <= max {
        Some(decimal(d))
    } else {
        None
    }
}

proof fn lemma_decimal_grows(s: Seq<char>, i: int)
    requires
        0 <= i <= s.len(),
        all_digits(s),
    ensures
        0 <= decimal(s.take(i)) <= decimal(s),
    decreases s.len(),
{
    if i == s.len() {
        assert(s.take(i) =~= s);
        if i > 0 {
            assert(all_digits(s.drop_last()));
            lemma_decimal_grows(s.drop_last(), i - 1);
        }
    } else {
        assert(all_digits(s.drop_last()));
        lemma_decimal_grows(s.drop_last(), i);
        assert(s.drop_last().take(i) =~= s.take(i));
    }
}

/// Reads an unsigned number of at most `max`: digits, with an optional `+`.
pub fn parse_unsigned(s: &str, max: u64) -> (r: Option<u64>)
    ensures
        match r {
            Some(n) => parsed_unsigned(s@, max as int) == Some(n as int),
            None => parsed_unsigned(s@, max as int) is None,
        },
{
    let cs: Vec<char> = chars_of(s);
    let start: usize = if cs.len() > 0 && cs[0] == '+' {
        1
    } else {
        0
    };
    let ghost d = without_plus(s@);
    proof {
        if start == 0 {
            assert(d =~= cs@.skip(0));
        }
    }
    if start == cs.len() {
        return None;
    }
    let mut n: u64 = 0;
    let mut i: usize = start;
    while i < cs.len()
        invariant
            start <= i <= cs@.len(),
            d == cs@.skip(start as int),
            d.len() > 0,
            d == without_plus(s@),
            all_digits(d.take(i - start)),
            n == decimal(d.take(i - start)),
            n <= max,
        decreases cs@.len() - i,
    {
        let c: char = cs[i];
        let ghost before = d.take(i - start);
        let ghost after = d.take(i - start + 1);
        assert(d[i - start] == c);
        assert(after.drop_last() =~= before);
        assert(after.last() == c);
        if !('0' <= c && c <= '9') {
            assert(!is_digit(d[i - start]));
            return None;
        }
        let v: u64 = (c as u64) - ('0' as u64);
        assert(all_digits(after)) by {
            assert forall|k: int| 0 <= k < after.len() implies is_digit(#[trigger] after[k]) by {
                if k < before.len() {
                    assert(before[k] == after[k]);
                }
            }
        }
        assert(decimal(after) == n * 10 + v);
        if v > max || n > (max - v) / 10 {
            proof {
                if all_digits(d) {
                    lemma_decimal_grows(d, i - start + 1);
                }
            }
            return None;
        }
        n = n * 10 + v;
        i += 1;
    }
    assert(d.take(d.len() as int) =~= d);
    Some(n)
}

/// The ASCII digit of a value below ten.
pub open spec fn digit_char(v: int) -> char {
    ('0' as int + v) as char
}

/// The shortest base-ten writing of `n`.
pub open spec fn digits(n: nat) -> Seq<char>
    decreases n,
{
    if n < 10 {
        seq![digit_char(n as int)]
    } else {
        digits(n / 10).push(digit_char((n % 10) as int))
    }
}

/// Writing a number and reading it back gives the number.
pub proof fn lemma_digits_read_back(n: nat)
    ensures
        digits(n).len() > 0,
        all_digits(digits(n)),
        decimal(digits(n)) == n,
    decreases n,
{
    if n >= 10 {
        lemma_digits_read_back(n / 10);
        let head = digits(n / 10);
        let last = digit_char((n % 10) as int);
        assert(digits(n).drop_last() =~= head);
        assert(digits(n).last() == last);
        assert forall|i: int| 0 <= i < digits(n).len() implies is_digit(#[trigger] digits(n)[i]) by {
            if i < head.len() {
                assert(head[i] == digits(n)[i]);
            }
        }
    } else {
        let one = seq![digit_char(n as int)];
        assert(digits(n) == one);
        assert(one.drop_last() =~= Seq::<char>::empty());
        assert(one.last() == digit_char(n as int));
        reveal_with_fuel(decimal, 2);
    }
}

/// A written number that fits is parsed as itself.
pub proof fn lemma_parsed_digits(n: nat, max: int)
    requires
        n <= max,
    ensures
        parsed_unsigned(digits(n), max) == Some(n as int),
{
    lemma_digits_read_back(n);
    assert(is_digit(digits(n)[0]));
}

fn digit_text(v: u64) -> (r: &'static str)
    requires
        v < 10,
    ensures
        r@ == seq![digit_char(v as int)],
{
    proof {
        reveal_strlit("0");
        reveal_strlit("1");
        reveal_strlit("2");
        reveal_strlit("3");
        reveal_strlit("4");
        reveal_strlit("5");
        reveal_strlit("6");
        reveal_strlit("7");
        reveal_strlit("8");
        reveal_strlit("9");
    }
    let r: &'static str = if v == 0 {
        "0"
    } else if v == 1 {
        "1"
    } else if v == 2 {
        "2"
    } else if v == 3 {
        "3"
    } else if v == 4 {
        "4"
    } else if v == 5 {
        "5"
    } else if v == 6 {
        "6"
    } else if v == 7 {
        "7"
    } else if v == 8 {
        "8"
    } else {
        "9"
    };
    assert(r@ =~= seq![digit_char(v as int)]);
    r
}

/// The base-ten writing of `n`.
pub fn number_text(n: u64) -> (r: String)
    ensures
        r@ == digits(n as nat),
    decreases n,
{
    if n < 10 {
        digit_text(n).to_owned()
    } else {
        let mut out: String = number_text(n / 10);
        out.append(digit_text(n % 10));
        assert(out@ =~= digits(n as nat));
        out
    }
}

/// The text of `a` followed by that of `b`.
pub fn joined(a: &str, b: &str) -> (r: String)
    ensures
        r@ == a@ + b@,
{
    let mut out: String = a.to_owned();
    out.append(b);
    out
}

/// The text of `a`, `b` and `c` in a row.
pub fn joined3(a: &str, b: &str, c: &str) -> (r: String)
    ensures
        r@ == a@ + b@ + c@,
{
    let mut out: String = joined(a, b);
    out.append(c);
    out
}

// White space.

/// Whether `c` has the Unicode property `White_Space`.
pub open spec fn is_space(c: char) -> bool {
    let n = c as int;
    ||| 0x9 <= n <= 0xd
    ||| n == 0x20
    ||| n == 0x85
    ||| n == 0xa0
    ||| n == 0x1680
    ||| 0x2000 <= n <= 0x200a
    ||| n == 0x2028
    ||| n == 0x2029
    ||| n == 0x202f
    ||| n == 0x205f
    ||| n == 0x3000
}

/// Whether `c` has the Unicode property `White_Space`.
pub fn is_space_char(c: char) -> (r: bool)
    ensures
        r == is_space(c),
{
    let n: u32 = c as u32;
    (n >= 0x9 && n <= 0xd) || n == 0x20 || n == 0x85 || n == 0xa0 || n == 0x1680 || (n >= 0x2000
        && n <= 0x200a) || n == 0x2028 || n == 0x2029 || n == 0x202f || n == 0x205f || n == 0x3000
}

/// `s` without its leading white space.
pub open spec fn trim_front(s: Seq<char>) -> Seq<char>
    decreases s.len(),
{
    if s.len() > 0 && is_space(s[0]) {
        trim_front(s.drop_first())
    } else {
        s
    }
}

/// `s` without its trailing white space.
pub open spec fn trim_back(s: Seq<char>) -> Seq<char>
    decreases s.len(),
{
    if s.len() > 0 && is_space(s.last()) {
        trim_back(s.drop_last())
    } else {
        s
    }
}

/// `s` without white space at either end.
pub open spec fn trimmed(s: Seq<char>) -> Seq<char> {
    trim_back(trim_front(s))
}

/// How many characters stand in front of the first white space of `s`.
pub open spec fn word_len(s: Seq<char>) -> int
    decreases s.len(),
{
    if s.len() == 0 || is_space(s[0]) {
        0
    } else {
        1 + word_len(s.drop_first())
    }
}

/// The words of `s`: its maximal runs without white space, in order.
pub open spec fn words(s: Seq<char>) -> Seq<Seq<char>>
    decreases s.len(),
    via words_decreases
{
    let t = trim_front(s);
    if t.len() == 0 {
        Seq::empty()
    } else {
        seq![t.take(word_len(t))] + words(t.skip(word_len(t)))
    }
}

#[via_fn]
proof fn words_decreases(s: Seq<char>) {
    let t = trim_front(s);
    lemma_trim_front(s);
    lemma_word_len(t);
}

/// `trim_front` drops a prefix of white space and stops at the first other character.
pub proof fn lemma_trim_front(s: Seq<char>)
    ensures
        trim_front(s).len() <= s.len(),
        trim_front(s) == s.skip(s.len() - trim_front(s).len()),
        forall|i: int| 0 <= i < s.len() - trim_front(s).len() ==> is_space(#[trigger] s[i]),
        trim_front(s).len() > 0 ==> !is_space(trim_front(s)[0]),
    decreases s.len(),
{
    if s.len() > 0 && is_space(s[0]) {
        let t = s.drop_first();
        lemma_trim_front(t);
        let n = s.len() - trim_front(s).len();
        assert(trim_front(s) =~= s.skip(n));
        assert forall|i: int| 0 <= i < n implies is_space(#[trigger] s[i]) by {
            if i > 0 {
                assert(t[i - 1] == s[i]);
            }
        }
    } else {
        assert(s.skip(0) =~= s);
    }
}

/// A word ends at the first white space or at the end.
pub proof fn lemma_word_len(s: Seq<char>)
    ensures
        0 <= word_len(s) <= s.len(),
        forall|i: int| 0 <= i < word_len(s) ==> !is_space(#[trigger] s[i]),
        word_len(s) < s.len() ==> is_space(s[word_len(s)]),
        s.len() > 0 && !is_space(s[0]) ==> word_len(s) > 0,
    decreases s.len(),
{
    if s.len() > 0 && !is_space(s[0]) {
        let t = s.drop_first();
        lemma_word_len(t);
        assert forall|i: int| 0 <= i < word_len(s) implies !is_space(#[trigger] s[i]) by {
            if i > 0 {
                assert(t[i - 1] == s[i]);
            }
        }
        if word_len(s) < s.len() {
            assert(t[word_len(t)] == s[word_len(s)]);
        }
    }
}

/// The end of the first word is where white space first appears.
proof fn lemma_word_len_is(s: Seq<char>, n: int)
    requires
        0 <= n <= s.len(),
        forall|i: int| 0 <= i < n ==> !is_space(#[trigger] s[i]),
        n < s.len() ==> is_space(s[n]),
    ensures
        word_len(s) == n,
{
    lemma_word_len(s);
    let m = word_len(s);
    if m < n {
        assert(!is_space(s[m]));
    }
    if n < m {
        assert(!is_space(s[n]));
    }
}

/// Dropping one more leading white space changes nothing.
proof fn lemma_trim_front_step(s: Seq<char>, i: int)
    requires
        0 <= i < s.len(),
        is_space(s[i]),
    ensures
        trim_front(s.skip(i)) == trim_front(s.skip(i + 1)),
{
    assert(s.skip(i)[0] == s[i]);
    assert(s.skip(i).drop_first() =~= s.skip(i + 1));
}

/// The words of `s`: its maximal runs without white space, in order.
pub fn split_words(s: &str) -> (r: Vec<String>)
    ensures
        texts(r@) == words(s@),
{
    let cs: Vec<char> = chars_of(s);
    let mut out: Vec<String> = Vec::new();
    let mut i: usize = 0;
    proof {
        assert(s@.skip(0) =~= s@);
        assert(texts(out@) + words(s@) =~= words(s@));
    }
    while i < cs.len()
        invariant
            i <= cs@.len(),
            cs@ == s@,
            texts(out@) + words(s@.skip(i as int)) == words(s@),
        decreases cs@.len() - i,
    {
        if is_space_char(cs[i]) {
            proof {
                lemma_trim_front_step(s@, i as int);
            }
            i += 1;
        } else {
            let start: usize = i;
            let ghost rest = s@.skip(start as int);
            while i < cs.len() && !is_space_char(cs[i])
                invariant
                    start <= i <= cs@.len(),
                    cs@ == s@,
                    forall|k: int| start <= k < i ==> !is_space(#[trigger] cs@[k]),
                decreases cs@.len() - i,
            {
                i += 1;
            }
            proof {
                assert forall|k: int| 0 <= k < i - start implies !is_space(#[trigger] rest[k]) by {
                    assert(rest[k] == cs@[start + k]);
                }
                lemma_word_len_is(rest, i - start);
                assert(trim_front(rest) == rest);
                assert(rest.take(i - start) =~= s@.subrange(start as int, i as int));
                assert(rest.skip(i - start) =~= s@.skip(i as int));
            }
            let w: String = s.substring_char(start, i).to_owned();
            let ghost before = out@;
            out.push(w);
            proof {
                assert(texts(out@) =~= texts(before).push(w@));
                assert(texts(before) + (seq![w@] + words(s@.skip(i as int))) =~= texts(before).push(
                    w@,
                ) + words(s@.skip(i as int)));
            }
        }
    }
    proof {
        assert(s@.skip(i as int) =~= Seq::<char>::empty());
        assert(texts(out@) + words(s@.skip(i as int)) =~= texts(out@));
    }
    out
}

/// `s` without white space at either end.
pub fn trim_text<'a>(s: &'a str) -> (r: &'a str)
    ensures
        r@ == trimmed(s@),
{
    let cs: Vec<char> = chars_of(s);
    let mut i: usize = 0;
    assert(s@.skip(0) =~= s@);
    while i < cs.len() && is_space_char(cs[i])
        invariant
            i <= cs@.len(),
            cs@ == s@,
            trim_front(s@.skip(i as int)) == trim_front(s@),
        decreases cs@.len() - i,
    {
        proof {
            lemma_trim_front_step(s@, i as int);
        }
        i += 1;
    }
    let ghost front = s@.skip(i as int);
    proof {
        assert(i < cs@.len() ==> front[0] == cs@[i as int]);
        assert(trim_front(s@) == front);
    }
    let mut j: usize = cs.len();
    assert(s@.subrange(i as int, j as int) =~= front);
    while j > i && is_space_char(cs[j - 1])
        invariant
            i <= j <= cs@.len(),
            cs@ == s@,
            trim_back(s@.subrange(i as int, j as int)) == trim_back(front),
        decreases j,
    {
        proof {
            let cur = s@.subrange(i as int, j as int);
            assert(cur.last() == cs@[j - 1]);
            assert(cur.drop_last() =~= s@.subrange(i as int, j - 1));
        }
        j -= 1;
    }
    proof {
        let cur = s@.subrange(i as int, j as int);
        assert(j > i ==> cur.last() == cs@[j - 1]);
    }
    s.substring_char(i, j)
}

// Laws.

/// A text is split at the first `c`: what stands before it holds no `c`, and what
/// stands after it is the rest. Without a `c` there is no second part.
pub proof fn law_split(v: Seq<char>, c: char, t: Seq<char>)
    requires
        !v.contains(c),
    ensures
        before_first(v.push(c) + t, c) == v,
        after_first(v.push(c) + t, c) == Some(t),
        before_first(v, c) == v,
        after_first(v, c) == None::<Seq<char>>,
{
    let s = v.push(c) + t;
    assert forall|i: int| 0 <= i < v.len() implies s[i] != c by {
        assert(s[i] == v[i]);
        assert(v.contains(v[i]));
    }
    lemma_position_is(s, c, v.len() as int);
    assert(s.take(v.len() as int) =~= v);
    assert(s.skip(v.len() as int + 1) =~= t);
    lemma_position_of(v, c);
    assert(v.take(v.len() as int) =~= v);
}

/// The digits are the ten characters with the codes 48 to 57.
pub proof fn law_digits_are_ascii(c: char)
    ensures
        is_digit(c) <==> 48 <= c as u32 && c as u32 <= 57,
        digit_value(c) == c as int - 48,
{
}

/// A number below ten is written as one digit, and any other as that without its
/// last digit, followed by its last digit.
pub proof fn law_number_writing(q: nat, d: nat)
    requires
        d < 10,
    ensures
        digits(d).len() == 1,
        digits(d)[0] as int == 48 + d,
        q > 0 ==> digits(10 * q + d).len() == digits(q).len() + 1,
        q > 0 ==> digits(10 * q + d).drop_last() == digits(q),
        q > 0 ==> digits(10 * q + d).last() as int == 48 + d,
{
    if q > 0 {
        let n = 10 * q + d;
        assert(n / 10 == q && n % 10 == d);
        assert(digits(n) == digits(q).push(digit_char(d as int)));
        assert(digits(n).drop_last() =~= digits(q));
    }
}

/// A digit behind a number makes ten times the number plus the digit, as long as
/// that is not too great; nothing else can be put behind a number. One digit is a
/// number by itself, and a `+` or zeros in front of a number change nothing.
pub proof fn law_number_reading(s: Seq<char>, c: char, max: int)
    requires
        0 <= max,
    ensures
        ({
            let d = c as int - 48;
            let r = parsed_unsigned(s.push(c), max);
            &&& !(0 <= d <= 9) && !(s.len() == 0 && c == '+') ==> r == None::<int>
            &&& 0 <= d <= 9 && s.len() == 0 ==> r == (if d <= max {
                Some(d)
            } else {
                None
            })
            &&& 0 <= d <= 9 ==> (parsed_unsigned(s, max) matches Some(n) ==> r == (if 10 * n + d
                <= max {
                Some(10 * n + d)
            } else {
                None
            }))
            &&& s.len() > 0 && s != seq!['+'] && parsed_unsigned(s, max) == None::<int> ==> r
                == None::<int>
        }),
        parsed_unsigned(Seq::empty(), max) == None::<int>,
        parsed_unsigned(seq!['+'], max) == None::<int>,
        s.len() > 0 && s[0] != '+' ==> parsed_unsigned(seq!['+'] + s, max) == parsed_unsigned(
            s,
            max,
        ),
{
    reveal_with_fuel(decimal, 2);
    let d = without_plus(s);
    let e = without_plus(s.push(c));
    if s.len() == 0 {
        assert(s.push(c) =~= seq![c]);
        assert(seq![c].drop_last() =~= Seq::<char>::empty());
        if c == '+' {
            assert(e =~= Seq::<char>::empty());
        } else {
            assert(e[0] == c);
        }
    } else {
        assert(s.push(c)[0] == s[0]);
        assert(e =~= d.push(c));
        assert(e.drop_last() =~= d);
        assert(e.last() == c);
        assert(e[d.len() as int] == c);
        if all_digits(e) {
            assert forall|i: int| 0 <= i < d.len() implies is_digit(#[trigger] d[i]) by {
                assert(e[i] == d[i]);
            }
            lemma_decimal_grows(e, d.len() as int);
            assert(e.take(d.len() as int) =~= d);
        }
        if all_digits(d) && is_digit(c) {
            assert forall|i: int| 0 <= i < e.len() implies is_digit(#[trigger] e[i]) by {
                if i < d.len() {
                    assert(e[i] == d[i]);
                }
            }
        }
        if d.len() == 0 {
            assert(s =~= seq!['+']);
        }
    }
    assert(without_plus(seq!['+']) =~= Seq::<char>::empty());
    if s.len() > 0 && s[0] != '+' {
        assert(without_plus(seq!['+'] + s) =~= s);
    }
}

/// The characters that count as white space are the 25 with the Unicode property
/// `White_Space`, by their codes.
pub proof fn law_white_space(c: char)
    ensures
        is_space(c) <==> seq![
            9u32,
            10u32,
            11u32,
            12u32,
            13u32,
            32u32,
            133u32,
            160u32,
            5760u32,
            8192u32,
            8193u32,
            8194u32,
            8195u32,
            8196u32,
            8197u32,
            8198u32,
            8199u32,
            8200u32,
            8201u32,
            8202u32,
            8232u32,
            8233u32,
            8239u32,
            8287u32,
            12288u32,
        ].contains(c as u32),
{
    let all = seq![
        9u32,
        10u32,
        11u32,
        12u32,
        13u32,
        32u32,
        133u32,
        160u32,
        5760u32,
        8192u32,
        8193u32,
        8194u32,
        8195u32,
        8196u32,
        8197u32,
        8198u32,
        8199u32,
        8200u32,
        8201u32,
        8202u32,
        8232u32,
        8233u32,
        8239u32,
        8287u32,
        12288u32,
    ];
    let n = c as u32;
    if is_space(c) {
        assert(all[0] == 9 && all[1] == 10 && all[2] == 11 && all[3] == 12 && all[4] == 13);
        assert(all[5] == 32 && all[6] == 133 && all[7] == 160 && all[8] == 5760);
        assert(all[9] == 8192 && all[10] == 8193 && all[11] == 8194 && all[12] == 8195);
        assert(all[13] == 8196 && all[14] == 8197 && all[15] == 8198 && all[16] == 8199);
        assert(all[17] == 8200 && all[18] == 8201 && all[19] == 8202 && all[20] == 8232);
        assert(all[21] == 8233 && all[22] == 8239 && all[23] == 8287 && all[24] == 12288);
    }
    if all.contains(n) {
        let i = choose|i: int| 0 <= i < all.len() && all[i] == n;
        assert(0 <= i < 25);
    }
}

/// Trimming takes white space off both ends and leaves what stands between, white
/// space inside it included.
pub proof fn law_trimmed(a: Seq<char>, t: Seq<char>, b: Seq<char>)
    requires
        forall|i: int| 0 <= i < a.len() ==> is_space(#[trigger] a[i]),
        forall|i: int| 0 <= i < b.len() ==> is_space(#[trigger] b[i]),
        t.len() > 0 ==> !is_space(t[0]) && !is_space(t.last()),
    ensures
        trimmed(a + t + b) == t,
    decreases a.len(), b.len(),
{
    let s = a + t + b;
    if a.len() > 0 {
        assert(s[0] == a[0]);
        assert(s.drop_first() =~= a.drop_first() + t + b);
        assert forall|i: int| 0 <= i < a.drop_first().len() implies is_space(
            #[trigger] a.drop_first()[i],
        ) by {
            assert(a.drop_first()[i] == a[i + 1]);
        }
        law_trimmed(a.drop_first(), t, b);
    } else if t.len() > 0 {
        assert(s[0] == t[0]);
        lemma_trim_back(t, b);
        assert(s =~= t + b);
    } else {
        assert(s =~= b);
        lemma_all_space(b);
        assert(trim_front(b) =~= t);
        assert(trim_back(t) =~= t);
    }
}

proof fn lemma_trim_back(t: Seq<char>, b: Seq<char>)
    requires
        forall|i: int| 0 <= i < b.len() ==> is_space(#[trigger] b[i]),
        t.len() > 0,
        !is_space(t.last()),
    ensures
        trim_back(t + b) == t,
    decreases b.len(),
{
    if b.len() > 0 {
        assert((t + b).last() == b.last());
        assert(b[b.len() - 1] == b.last());
        assert((t + b).drop_last() =~= t + b.drop_last());
        lemma_trim_back(t, b.drop_last());
    } else {
        assert(t + b =~= t);
    }
}

proof fn lemma_all_space(b: Seq<char>)
    requires
        forall|i: int| 0 <= i < b.len() ==> is_space(#[trigger] b[i]),
    ensures
        trim_front(b).len() == 0,
    decreases b.len(),
{
    if b.len() > 0 {
        assert(is_space(b[0]));
        assert forall|i: int| 0 <= i < b.drop_first().len() implies is_space(
            #[trigger] b.drop_first()[i],
        ) by {
            assert(b.drop_first()[i] == b[i + 1]);
        }
        lemma_all_space(b.drop_first());
    }
}

/// The first word of a text stands behind any white space and ends where white
/// space or the end comes; the other words are those of the rest. White space alone
/// holds no word.
pub proof fn law_words(gap: Seq<char>, word: Seq<char>, rest: Seq<char>)
    requires
        forall|i: int| 0 <= i < gap.len() ==> is_space(#[trigger] gap[i]),
        word.len() > 0,
        forall|i: int| 0 <= i < word.len() ==> !is_space(#[trigger] word[i]),
        rest.len() > 0 ==> is_space(rest[0]),
    ensures
        words(gap + word + rest) == seq![word] + words(rest),
        words(gap) == Seq::<Seq<char>>::empty(),
{
    let s = gap + word + rest;
    let t = word + rest;
    lemma_all_space(gap);
    lemma_skip_gap(gap, t);
    assert(s =~= gap + t);
    assert(t[0] == word[0]);
    assert(trim_front(t) == t);
    assert forall|i: int| 0 <= i < word.len() implies !is_space(#[trigger] t[i]) by {
        assert(t[i] == word[i]);
    }
    assert(rest.len() > 0 ==> t[word.len() as int] == rest[0]);
    lemma_word_len_is(t, word.len() as int);
    assert(t.take(word.len() as int) =~= word);
    assert(t.skip(word.len() as int) =~= rest);
}

proof fn lemma_skip_gap(gap: Seq<char>, t: Seq<char>)
    requires
        forall|i: int| 0 <= i < gap.len() ==> is_space(#[trigger] gap[i]),
    ensures
        trim_front(gap + t) == trim_front(t),
    decreases gap.len(),
{
    if gap.len() > 0 {
        assert((gap + t)[0] == gap[0]);
        assert((gap + t).drop_first() =~= gap.drop_first() + t);
        assert forall|i: int| 0 <= i < gap.drop_first().len() implies is_space(
            #[trigger] gap.drop_first()[i],
        ) by {
            assert(gap.drop_first()[i] == gap[i + 1]);
        }
        lemma_skip_gap(gap.drop_first(), t);
    } else {
        assert(gap + t =~= t);
    }
}

/// The words of a list, written with one space before each, are read back as that
/// list.
pub proof fn law_words_read_back(ws: Seq<Seq<char>>)
    requires
        forall|k: int| 0 <= k < ws.len() ==> is_word(#[trigger] ws[k]),
    ensures
        words(spaced(ws)) == ws,
    decreases ws.len(),
{
    let none = Seq::<char>::empty();
    if ws.len() == 0 {
        assert(words(none) == Seq::<Seq<char>>::empty());
        assert(ws =~= Seq::<Seq<char>>::empty());
    } else {
        let rest = ws.skip(1);
        assert forall|k: int| 0 <= k < rest.len() implies is_word(#[trigger] rest[k]) by {
            assert(rest[k] == ws[k + 1]);
        }
        law_words_read_back(rest);
        assert(is_word(ws[0]));
        assert(is_space(' '));
        if rest.len() > 0 {
            assert(spaced(rest)[0] == ' ');
        }
        law_words(seq![' '], ws[0], spaced(rest));
        assert(seq![ws[0]] + rest =~= ws);
    }
}

/// Whether `w` is a word: some characters, none of them white space.
pub open spec fn is_word(w: Seq<char>) -> bool {
    w.len() > 0 && forall|i: int| 0 <= i < w.len() ==> !is_space(#[trigger] w[i])
}

/// The words `ws` in a row, each with a space before it.
pub open spec fn spaced(ws: Seq<Seq<char>>) -> Seq<char>
    decreases ws.len(),
{
    if ws.len() == 0 {
        Seq::empty()
    } else {
        seq![' '] + ws[0] + spaced(ws.skip(1))
    }
}

/// What the functions of this module return, in the terms of the laws above.
pub proof fn law_text_functions()
    ensures
        forall|s: &str, r: Vec<char>| #[trigger] call_ensures(chars_of, (s,), r) ==> r@ == s@,
        forall|a: &str, b: &str, r: bool| #[trigger]
            call_ensures(same_text, (a, b), r) ==> (r <==> a@ == b@),
        forall|l: &Vec<String>, s: &str, r: bool| #[trigger]
            call_ensures(has_text, (l, s), r) ==> (r <==> exists|i: int|
                0 <= i < l@.len() && (#[trigger] l@[i])@ == s@),
        forall|n: u64, r: String| #[trigger]
            call_ensures(number_text, (n,), r) ==> r@ == digits(n as nat),
        forall|s: &str, max: u64, r: Option<u64>| #[trigger]
            call_ensures(parse_unsigned, (s, max), r) ==> (r matches Some(n) ==> parsed_unsigned(
                s@,
                max as int,
            ) == Some(n as int)) && (r is None ==> parsed_unsigned(s@, max as int) is None),
        forall|a: &str, b: &str, r: String| #[trigger]
            call_ensures(joined, (a, b), r) ==> r@ == a@ + b@,
        forall|a: &str, b: &str, c: &str, r: String| #[trigger]
            call_ensures(joined3, (a, b, c), r) ==> r@ == a@ + b@ + c@,
        forall|s: &str, r: Vec<String>| #[trigger]
            call_ensures(split_words, (s,), r) ==> texts(r@) == words(s@),
        forall|s: &str, c: char, r: (&str, Option<&str>)| #[trigger]
            call_ensures(split_once_at, (s, c), r) ==> {
                &&& r.0@ == before_first(s@, c)
                &&& r.1 is None <==> after_first(s@, c) is None
                &&& r.1 matches Some(t) ==> after_first(s@, c) == Some(t@)
            },
        forall|c: char, r: bool| #[trigger] call_ensures(is_space_char, (c,), r) ==> (r
            <==> is_space(c)),
        forall|s: &str, r: &str| #[trigger] call_ensures(trim_text, (s,), r) ==> r@ == trimmed(s@),
{
    assert forall|l: &Vec<String>, s: &str, r: bool| #[trigger]
        call_ensures(has_text, (l, s), r) implies (r <==> exists|i: int|
        0 <= i < l@.len() && (#[trigger] l@[i])@ == s@) by {
        let t = texts(l@);
        if r {
            let i = choose|i: int| 0 <= i < t.len() && t[i] == s@;
            assert(l@[i]@ == s@);
        }
        if exists|i: int| 0 <= i < l@.len() && (#[trigger] l@[i])@ == s@ {
            let i = choose|i: int| 0 <= i < l@.len() && (#[trigger] l@[i])@ == s@;
            assert(t[i] == s@);
        }
    }
}

} // verus!
