//! Characters, trimming and unsigned numbers: the vocabulary in which the
//! fixed-column records are decoded.

use vstd::prelude::*;

verus! {

/// Whether `c` carries the Unicode property `White_Space`.
pub open spec fn whitespace(c: char) -> bool {
    let n = c as u32;
    ||| 0x09 <= n <= 0x0D
    ||| n == 0x20
    ||| n == 0x85
    ||| n == 0xA0
    ||| n == 0x1680
    ||| 0x2000 <= n <= 0x200A
    ||| n == 0x2028
    ||| n == 0x2029
    ||| n == 0x202F
    ||| n == 0x205F
    ||| n == 0x3000
}

/// `s` without its leading white space.
pub open spec fn trimmed_start(s: Seq<char>) -> Seq<char>
    decreases s.len(),
{
    if s.len() > 0 && whitespace(s[0]) {
        trimmed_start(s.drop_first())
    } else {
        s
    }
}

/// `s` without its trailing white space.
pub open spec fn trimmed_end(s: Seq<char>) -> Seq<char>
    decreases s.len(),
{
    if s.len() > 0 && whitespace(s.last()) {
        trimmed_end(s.drop_last())
    } else {
        s
    }
}

/// `s` without leading and trailing white space.
pub open spec fn trimmed(s: Seq<char>) -> Seq<char> {
    trimmed_end(trimmed_start(s))
}

/// The position of the first `c` in `s`, or the length of `s` if it holds
/// none.
pub open spec fn first_position(s: Seq<char>, c: char) -> int
    decreases s.len(),
{
    if s.len() == 0 || s[0] == c {
        0
    } else {
        1 + first_position(s.drop_first(), c)
    }
}

/// `line` without the carriage return at its end, if it has one.
pub open spec fn without_return(line: Seq<char>) -> Seq<char> {
    if line.len() > 0 && line.last() == '\r' {
        line.drop_last()
    } else {
        line
    }
}

/// The lines of `text`: each ends before a line feed, or at the end of the
/// text if no line feed follows; a carriage return before the line feed is
/// not part of the line, and nothing follows the last line feed.
pub open spec fn lines_of(text: Seq<char>) -> Seq<Seq<char>>
    decreases text.len(),
{
    let k = first_position(text, '\n');
    if text.len() == 0 {
        Seq::empty()
    } else if k < 0 || k >= text.len() {
        seq![text]
    } else {
        seq![without_return(text.take(k))] + lines_of(text.skip(k + 1))
    }
}

/// Whether `c` is one of the ten ASCII digits.
pub open spec fn digit(c: char) -> bool {
    '0' <= c <= '9'
}

/// Whether every character of `s` is an ASCII digit.
pub open spec fn all_digits(s: Seq<char>) -> bool {
    forall|i: int| 0 <= i < s.len() ==> digit(#[trigger] s[i])
}

/// The number that the digit `c` stands for; zero for any other character.
pub open spec fn digit_value(c: char) -> nat {
    if digit(c) {
        (c as u32 - '0' as u32) as nat
    } else {
        0
    }
}

/// The number that the digit string `s` denotes in base ten; the empty
/// string denotes zero.
pub open spec fn digits_value(s: Seq<char>) -> nat
    decreases s.len(),
{
    if s.len() == 0 {
        0
    } else {
        digits_value(s.drop_last()) * 10 + digit_value(s.last())
    }
}

/// The natural number written in `s`: an optional `+` followed by at least
/// one ASCII digit, and nothing else.
pub open spec fn unsigned_of(s: Seq<char>) -> Option<nat> {
    let body = if s.len() > 0 && s[0] == '+' {
        s.drop_first()
    } else {
        s
    };
    if body.len() > 0 && all_digits(body) {
        Some(digits_value(body))
    } else {
        None
    }
}

/// The `usize` written in `s`, if `s` is an unsigned number that fits.
pub open spec fn usize_of(s: Seq<char>) -> Option<usize> {
    match unsigned_of(s) {
        Some(v) => if v <= usize::MAX {
            Some(v as usize)
        } else {
            None
        },
        None => None,
    }
}

/// Tests `c` for the Unicode property `White_Space`.
pub fn is_whitespace(c: char) -> (r: bool)
    ensures
        r == whitespace(c),
{
    let n: u32 = c as u32;
    (0x09 <= n && n <= 0x0D) || n == 0x20 || n == 0x85 || n == 0xA0 || n == 0x1680 || (0x2000 <= n
        && n <= 0x200A) || n == 0x2028 || n == 0x2029 || n == 0x202F || n == 0x205F || n == 0x3000
}

/// Trimming the front of `s` leaves the part from its first character that
/// is not white space.
pub proof fn lemma_trimmed_start_skips(s: Seq<char>, k: int)
    requires
        0 <= k <= s.len(),
        forall|i: int| 0 <= i < k ==> whitespace(#[trigger] s[i]),
        k < s.len() ==> !whitespace(s[k]),
    ensures
        trimmed_start(s) == s.skip(k),
    decreases k,
{
    if k == 0 {
        assert(s.skip(0) =~= s);
    } else {
        let t = s.drop_first();
        assert forall|i: int| 0 <= i < k - 1 implies whitespace(#[trigger] t[i]) by {
            assert(t[i] == s[i + 1]);
        }
        lemma_trimmed_start_skips(t, k - 1);
        assert(t.skip(k - 1) =~= s.skip(k));
    }
}

/// Trimming the back of `s` leaves the part up to its last character that
/// is not white space.
pub proof fn lemma_trimmed_end_takes(s: Seq<char>, k: int)
    requires
        0 <= k <= s.len(),
        forall|i: int| k <= i < s.len() ==> whitespace(#[trigger] s[i]),
        k > 0 ==> !whitespace(s[k - 1]),
    ensures
        trimmed_end(s) == s.take(k),
    decreases s.len() - k,
{
    if k == s.len() {
        assert(s.take(k) =~= s);
    } else {
        let t = s.drop_last();
        lemma_trimmed_end_takes(t, k);
        assert(t.take(k) =~= s.take(k));
    }
}

/// The part of `s` between its leading and its trailing white space.
pub fn trim(s: &[char]) -> (r: &[char])
    ensures
        r@ == trimmed(s@),
{
    let n: usize = s.len();
    let mut a: usize = 0;
    while a < n && is_whitespace(s[a])
        invariant
            a <= n,
            n == s@.len(),
            forall|i: int| 0 <= i < a ==> whitespace(#[trigger] s@[i]),
        decreases n - a,
    {
        a += 1;
    }
    let mut b: usize = n;
    while b > a && is_whitespace(s[b - 1])
        invariant
            a <= b <= n,
            n == s@.len(),
            forall|i: int| b <= i < n ==> whitespace(#[trigger] s@[i]),
        decreases b,
    {
        b -= 1;
    }
    proof {
        lemma_trimmed_start_skips(s@, a as int);
        let t = s@.skip(a as int);
        assert forall|i: int| b - a <= i < t.len() implies whitespace(#[trigger] t[i]) by {
            assert(t[i] == s@[i + a]);
        }
        lemma_trimmed_end_takes(t, b - a);
        assert(t.take(b - a) =~= s@.subrange(a as int, b as int));
    }
    &s[a..b]
}

/// The first `c` of `s` stands at `p` when none stands before `p`.
pub proof fn lemma_first_position(s: Seq<char>, c: char, p: int)
    requires
        0 <= p <= s.len(),
        forall|i: int| 0 <= i < p ==> #[trigger] s[i] != c,
        p < s.len() ==> s[p] == c,
    ensures
        first_position(s, c) == p,
    decreases p,
{
    if p > 0 {
        let t = s.drop_first();
        assert forall|i: int| 0 <= i < p - 1 implies #[trigger] t[i] != c by {
            assert(t[i] == s[i + 1]);
        }
        lemma_first_position(t, c, p - 1);
    }
}

/// No `c` stands before the first `c`.
pub proof fn lemma_first_position_none_before(s: Seq<char>, c: char)
    ensures
        forall|i: int| 0 <= i < first_position(s, c) && i < s.len() ==> #[trigger] s[i] != c,
    decreases s.len(),
{
    if s.len() > 0 && s[0] != c {
        let t = s.drop_first();
        lemma_first_position_none_before(t, c);
        assert forall|i: int| 0 <= i < first_position(s, c) && i < s.len() implies #[trigger] s[i]
            != c by {
            if i > 0 {
                assert(t[i - 1] == s[i]);
            }
        }
    }
}

/// Whether no line feed stands in `s`.
pub open spec fn no_line_feed(s: Seq<char>) -> bool {
    forall|i: int| 0 <= i < s.len() ==> #[trigger] s[i] != '\n'
}

/// A text that ends in a line feed and holds no other is one line.
pub proof fn lemma_lines_of_one(line: Seq<char>)
    requires
        no_line_feed(line),
    ensures
        lines_of(line + seq!['\n']) == seq![without_return(line)],
{
    let text = line + seq!['\n'];
    assert forall|i: int| 0 <= i < line.len() implies #[trigger] text[i] != '\n' by {
        assert(text[i] == line[i]);
    }
    lemma_first_position(text, '\n', line.len() as int);
    assert(text.take(line.len() as int) =~= line);
    assert(text.skip(line.len() as int + 1) =~= Seq::<char>::empty());
    assert(lines_of(Seq::<char>::empty()) =~= Seq::<Seq<char>>::empty());
    assert(seq![without_return(line)] + Seq::<Seq<char>>::empty() =~= seq![without_return(line)]);
}

/// The lines of two texts with a line feed between them are the lines of
/// the first, ended by the line feed, and then the lines of the second.
pub proof fn lemma_lines_of_joined(front: Seq<char>, back: Seq<char>)
    ensures
        lines_of(front + seq!['\n'] + back) == lines_of(front + seq!['\n']) + lines_of(back),
    decreases front.len(),
{
    let text = front + seq!['\n'] + back;
    let ended = front + seq!['\n'];
    let k = first_position(front, '\n');
    lemma_first_position_range(front, '\n');
    lemma_first_position_none_before(front, '\n');
    lemma_first_position_found(front, '\n');
    assert forall|i: int| 0 <= i < k implies #[trigger] text[i] != '\n' by {
        assert(text[i] == front[i]);
    }
    assert forall|i: int| 0 <= i < k implies #[trigger] ended[i] != '\n' by {
        assert(ended[i] == front[i]);
    }
    assert(text[k] == '\n');
    assert(ended[k] == '\n');
    lemma_first_position(text, '\n', k);
    lemma_first_position(ended, '\n', k);
    assert(text.take(k) =~= front.take(k));
    assert(ended.take(k) =~= front.take(k));
    let first = seq![without_return(front.take(k))];
    if k == front.len() {
        assert(text.skip(k + 1) =~= back);
        assert(ended.skip(k + 1) =~= Seq::<char>::empty());
        assert(lines_of(ended.skip(k + 1)) =~= Seq::<Seq<char>>::empty());
        assert(first + Seq::<Seq<char>>::empty() =~= first);
    } else {
        let rest = front.skip(k + 1);
        assert(text.skip(k + 1) =~= rest + seq!['\n'] + back);
        assert(ended.skip(k + 1) =~= rest + seq!['\n']);
        lemma_lines_of_joined(rest, back);
        assert(first + (lines_of(rest + seq!['\n']) + lines_of(back)) =~= (first + lines_of(
            rest + seq!['\n'],
        )) + lines_of(back));
    }
}

/// Where the first `c` stands within the text, a `c` stands.
pub proof fn lemma_first_position_found(s: Seq<char>, c: char)
    ensures
        0 <= first_position(s, c) < s.len() ==> s[first_position(s, c)] == c,
    decreases s.len(),
{
    if s.len() > 0 && s[0] != c {
        lemma_first_position_found(s.drop_first(), c);
        lemma_first_position_range(s.drop_first(), c);
    }
}

/// The first `c` stands within the text or at its end.
pub proof fn lemma_first_position_range(s: Seq<char>, c: char)
    ensures
        0 <= first_position(s, c) <= s.len(),
    decreases s.len(),
{
    if s.len() > 0 && s[0] != c {
        lemma_first_position_range(s.drop_first(), c);
    }
}

/// The first `c` stands behind every position up to which no `c` is found.
pub proof fn lemma_first_position_after(s: Seq<char>, c: char, k: int)
    requires
        0 <= k < s.len(),
        forall|i: int| 0 <= i <= k ==> #[trigger] s[i] != c,
    ensures
        first_position(s, c) > k,
    decreases k,
{
    if k > 0 {
        let t = s.drop_first();
        assert forall|i: int| 0 <= i <= k - 1 implies #[trigger] t[i] != c by {
            assert(t[i] == s[i + 1]);
        }
        lemma_first_position_after(t, c, k - 1);
    } else {
        assert(s[0] != c);
        lemma_first_position_range(s.drop_first(), c);
    }
}

/// Writing one more digit behind a digit string multiplies its value by ten
/// and adds the digit.
pub proof fn lemma_digits_value_push(s: Seq<char>, c: char)
    ensures
        digits_value(s.push(c)) == digits_value(s) * 10 + digit_value(c),
{
    assert(s.push(c).drop_last() =~= s);
}

/// Reads an unsigned number: an optional `+`, then ASCII digits. Anything
/// else, and any number that does not fit a `usize`, gives `None`.
pub fn parse_usize(s: &[char]) -> (r: Option<usize>)
    ensures
        r == usize_of(s@),
{
    let n: usize = s.len();
    let start: usize = if n > 0 && s[0] == '+' {
        1
    } else {
        0
    };
    if start == n {
        return None;
    }
    let ghost body = s@.skip(start as int);
    proof {
        if start == 1 {
            assert(body =~= s@.drop_first());
        } else {
            assert(body =~= s@);
        }
    }
    let mut value: usize = 0;
    let mut overflow: bool = false;
    let mut i: usize = start;
    while i < n
        invariant
            start <= i <= n,
            n == s@.len(),
            body == s@.skip(start as int),
            unsigned_of(s@) == if all_digits(body) {
                Some(digits_value(body))
            } else {
                None
            },
            all_digits(body.take(i - start)),
            !overflow ==> value == digits_value(body.take(i - start)),
            overflow ==> digits_value(body.take(i - start)) > usize::MAX,
        decreases n - i,
    {
        let c: char = s[i];
        if !(c >= '0' && c <= '9') {
            proof {
                assert(body[i - start] == c);
                assert(!all_digits(body));
            }
            return None;
        }
        let d: usize = (c as u32 - '0' as u32) as usize;
        proof {
            let before = body.take(i - start);
            let after = body.take(i - start + 1);
            assert(after =~= before.push(c));
            lemma_digits_value_push(before, c);
            assert forall|k: int| 0 <= k < after.len() implies digit(#[trigger] after[k]) by {
                if k < before.len() {
                    assert(after[k] == before[k]);
                }
            }
        }
        if overflow {
        } else if value > (usize::MAX - d) / 10 {
            overflow = true;
        } else {
            value = value * 10 + d;
        }
        i += 1;
    }
    assert(body.take(n - start) =~= body);
    if overflow {
        None
    } else {
        Some(value)
    }
}

/// `String::push` of the standard library: the character is appended to
/// the string and nothing else of it changes.
#[verifier::external_body]
fn push_char(s: &mut String, c: char)
    ensures
        final(s)@ == old(s)@.push(c),
{
    s.push(c)
}

/// The string that holds the characters `chars`, in order.
pub fn string_of(chars: &[char]) -> (s: String)
    ensures
        s@ == chars@,
{
    let mut s: String = String::new();
    let mut i: usize = 0;
    while i < chars.len()
        invariant
            i <= chars.len(),
            s@ == chars@.take(i as int),
        decreases chars.len() - i,
    {
        push_char(&mut s, chars[i]);
        assert(s@ =~= chars@.take(i + 1));
        i += 1;
    }
    assert(chars@.take(chars.len() as int) =~= chars@);
    s
}

/// The characters of `line` from position `from` up to, not including,
/// position `to`.
pub fn span(line: &[char], from: usize, to: usize) -> (r: &[char])
    requires
        from <= to <= line.len(),
    ensures
        r@ == line@.subrange(from as int, to as int),
{
    &line[from..to]
}

/// Whether `line` begins with the characters of `tag`.
pub fn has_prefix(line: &[char], tag: &[char]) -> (r: bool)
    ensures
        r == tag@.is_prefix_of(line@),
{
    if line.len() < tag.len() {
        return false;
    }
    let mut i: usize = 0;
    while i < tag.len()
        invariant
            i <= tag.len() <= line.len(),
            forall|k: int| 0 <= k < i ==> line@[k] == tag@[k],
        decreases tag.len() - i,
    {
        if line[i] != tag[i] {
            return false;
        }
        i += 1;
    }
    assert(tag@ =~= line@.subrange(0, tag@.len() as int));
    true
}

/// The characters of `s`, in order.
pub fn to_chars(s: &str) -> (v: Vec<char>)
    ensures
        v@ == s@,
{
    let mut v: Vec<char> = Vec::new();
    for c in it: s.chars()
        invariant
            it.seq() == s@,
            v@ == s@.take(it.index()),
    {
        v.push(c);
        assert(v@ =~= s@.take(it.index() + 1));
    }
    assert(v@ =~= s@);
    v
}

} // verus!
