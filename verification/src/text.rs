//! Reading and writing short texts: the values of settings, and messages.
use vstd::prelude::*;
use vstd::string::StrSliceExecFns;
use vstd::string::StringExecFns;

verus! {

/// `text` in lower case, as the Unicode tables have it.
pub uninterp spec fn lowercase(text: Seq<char>) -> Seq<char>;

/// Calls `str::to_lowercase`. What is claimed of it is that the result depends on the
/// text alone; the tables behind it are not restated here.
#[verifier::external_body]
pub(crate) fn to_lowercase(text: &str) -> (r: String)
    ensures
        r@ == lowercase(text@),
{
    text.to_lowercase()
}

/// Whether `c` has the Unicode property `White_Space`.
pub open spec fn white_space(c: char) -> bool {
    let n = c as u32;
    ||| 0x9 <= n <= 0xD
    ||| n == 0x20
    ||| n == 0x85
    ||| n == 0xA0
    ||| n == 0x1680
    ||| 0x2000 <= n <= 0x200A
    ||| n == 0x2028
    ||| n == 0x2029
    ||| n == 0x202F
    ||| n == 0x205F
    ||| n == 0x3000
}

/// Whether `c` has the Unicode property `White_Space`.
pub fn is_white_space(c: char) -> (r: bool)
    ensures
        r == white_space(c),
{
    let n: u32 = c as u32;
    (0x9 <= n && n <= 0xD) || n == 0x20 || n == 0x85 || n == 0xA0 || n == 0x1680 || (0x2000 <= n
        && n <= 0x200A) || n == 0x2028 || n == 0x2029 || n == 0x202F || n == 0x205F || n == 0x3000
}

/// `text` without the white space at its two ends.
pub open spec fn trimmed(text: Seq<char>) -> Seq<char>
    decreases text.len(),
{
    if text.len() == 0 {
        text
    } else if white_space(text[0]) {
        trimmed(text.drop_first())
    } else if white_space(text.last()) {
        trimmed(text.drop_last())
    } else {
        text
    }
}

/// The characters of `text`.
pub fn characters(text: &str) -> (r: Vec<char>)
    ensures
        r@ == text@,
{
    let mut r: Vec<char> = Vec::new();
    for c in it: text.chars()
        invariant
            r@ == it.seq().take(it.index()),
            it.seq() == text@,
    {
        r.push(c);
    }
    r
}

/// `text` without the white space at its two ends.
pub fn trim(text: &str) -> (r: &str)
    ensures
        r@ == trimmed(text@),
{
    let chars: Vec<char> = characters(text);
    let mut from: usize = 0;
    assert(text@.subrange(0, text@.len() as int) == text@);
    while from < chars.len() && is_white_space(chars[from])
        invariant
            from <= chars.len(),
            chars@ == text@,
            trimmed(text@) == trimmed(text@.subrange(from as int, text@.len() as int)),
        decreases chars.len() - from,
    {
        assert(text@.subrange(from as int, text@.len() as int).drop_first() == text@.subrange(
            from + 1,
            text@.len() as int,
        ));
        from = from + 1;
    }
    let mut to: usize = chars.len();
    while from < to && is_white_space(chars[to - 1])
        invariant
            from <= to <= chars.len(),
            chars@ == text@,
            from < chars.len() ==> !white_space(text@[from as int]),
            trimmed(text@) == trimmed(text@.subrange(from as int, to as int)),
        decreases to - from,
    {
        assert(text@.subrange(from as int, to as int).drop_last() == text@.subrange(
            from as int,
            to - 1,
        ));
        to = to - 1;
    }
    text.substring_char(from, to)
}

/// Whether `a` and `b` are the same text.
pub fn same_text(a: &str, b: &str) -> (r: bool)
    ensures
        r == (a@ == b@),
{
    a.to_owned() == b.to_owned()
}

/// Whether `text` begins with `prefix`.
pub fn starts_with(text: &str, prefix: &str) -> (r: bool)
    ensures
        r == prefix@.is_prefix_of(text@),
{
    let t: Vec<char> = characters(text);
    let p: Vec<char> = characters(prefix);
    if p.len() > t.len() {
        return false;
    }
    let mut i: usize = 0;
    while i < p.len()
        invariant
            i <= p.len() <= t.len(),
            t@ == text@,
            p@ == prefix@,
            forall|j: int| 0 <= j < i ==> p@[j] == t@[j],
        decreases p.len() - i,
    {
        if p[i] != t[i] {
            assert(text@.subrange(0, prefix@.len() as int)[i as int] != prefix@[i as int]);
            return false;
        }
        i = i + 1;
    }
    assert(prefix@ =~= text@.subrange(0, prefix@.len() as int));
    true
}

/// Whether a list of addresses is split at `c`.
pub open spec fn separator(c: char) -> bool {
    c == ' ' || c == ','
}

/// How many characters stand before the first separator.
pub open spec fn until_separator(text: Seq<char>) -> int
    decreases text.len(),
{
    if text.len() == 0 || separator(text[0]) {
        0
    } else {
        1 + until_separator(text.drop_first())
    }
}

/// The pieces of `text` between separators, without the white space at their ends and
/// without those that are then empty.
pub open spec fn tokens(text: Seq<char>) -> Seq<Seq<char>>
    decreases text.len(),
{
    proof {
        lemma_until_separator_bounds(text);
    }
    let n = until_separator(text);
    let piece = trimmed(text.take(n));
    let first = if piece.len() == 0 {
        Seq::empty()
    } else {
        seq![piece]
    };
    if n == text.len() {
        first
    } else {
        first + tokens(text.skip(n + 1))
    }
}

/// The first separator, or the end, stands within the text.
pub proof fn lemma_until_separator_bounds(text: Seq<char>)
    ensures
        0 <= until_separator(text) <= text.len(),
    decreases text.len(),
{
    if text.len() > 0 {
        lemma_until_separator_bounds(text.drop_first());
    }
}

/// The first separator is where it is first found.
proof fn lemma_until_separator(text: Seq<char>, n: int)
    requires
        0 <= n <= text.len(),
        forall|i: int| 0 <= i < n ==> !separator(#[trigger] text[i]),
        n < text.len() ==> separator(text[n]),
    ensures
        until_separator(text) == n,
    decreases n,
{
    if n > 0 {
        assert forall|i: int| 0 <= i < n - 1 implies !separator(
            #[trigger] text.drop_first()[i],
        ) by {
            assert(!separator(text[i + 1]));
        }
        lemma_until_separator(text.drop_first(), n - 1);
    }
}

/// Adding at the end of a list of texts.
proof fn lemma_views_push(texts: Seq<String>, text: String)
    ensures
        texts.push(text).map_values(|t: String| t@) == texts.map_values(|t: String| t@).push(text@),
{
    assert(texts.push(text).map_values(|t: String| t@) =~= texts.map_values(
        |t: String| t@,
    ).push(text@));
}

/// The pieces of `text` between spaces and commas, trimmed, without the empty ones.
pub fn split_list(text: &str) -> (r: Vec<String>)
    ensures
        r@.map_values(|t: String| t@) == tokens(text@),
{
    let chars: Vec<char> = characters(text);
    let mut found: Vec<String> = Vec::new();
    let mut start: usize = 0;
    assert(text@.skip(0) == text@);
    assert(found@.map_values(|t: String| t@) == Seq::<Seq<char>>::empty());
    loop
        invariant
            start <= chars.len(),
            chars@ == text@,
            tokens(text@) == found@.map_values(|t: String| t@) + tokens(text@.skip(start as int)),
        decreases chars.len() - start,
    {
        let mut end: usize = start;
        while end < chars.len() && chars[end] != ' ' && chars[end] != ','
            invariant
                start <= end <= chars.len(),
                chars@ == text@,
                forall|i: int| start <= i < end ==> !separator(#[trigger] chars@[i]),
            decreases chars.len() - end,
        {
            end = end + 1;
        }
        let ghost rest = text@.skip(start as int);
        proof {
            assert forall|i: int| 0 <= i < end - start implies !separator(#[trigger] rest[i]) by {
                assert(!separator(chars@[start + i]));
            }
            lemma_until_separator(rest, end - start);
            assert(rest.take(end - start) == text@.subrange(start as int, end as int));
        }
        let piece: &str = trim(text.substring_char(start, end));
        let ghost before = found@;
        let ghost views = found@.map_values(|t: String| t@);
        if !piece.is_empty() {
            let piece: String = piece.to_owned();
            proof {
                lemma_views_push(before, piece);
            }
            found.push(piece);
            assert(found@.map_values(|t: String| t@) == views + seq![piece@]);
        }
        if end == chars.len() {
            assert(found@.map_values(|t: String| t@) == tokens(text@));
            return found;
        }
        proof {
            let later = tokens(text@.skip(end + 1));
            assert(rest.skip(end - start + 1) == text@.skip(end + 1));
            if piece@.len() == 0 {
                assert(tokens(rest) == Seq::<Seq<char>>::empty() + later);
                assert(tokens(rest) == later);
            } else {
                assert(tokens(rest) == seq![piece@] + later);
                assert(views + (seq![piece@] + later) == (views + seq![piece@]) + later);
            }
        }
        start = end + 1;
    }
}

/// The number that a sequence of decimal digits stands for; `None` where a character is
/// no digit.
pub open spec fn digits_value(digits: Seq<char>) -> Option<nat>
    decreases digits.len(),
{
    if digits.len() == 0 {
        Some(0)
    } else {
        match digits_value(digits.drop_last()) {
            Some(n) if '0' <= digits.last() <= '9' => Some(
                (10 * n + (digits.last() as u32 - '0' as u32)) as nat,
            ),
            _ => None,
        }
    }
}

/// The number that `text` stands for: decimal digits, at least one of them, after a plus
/// sign or nothing.
pub open spec fn unsigned_value(text: Seq<char>) -> Option<nat> {
    let digits = if text.len() > 0 && text[0] == '+' {
        text.drop_first()
    } else {
        text
    };
    if digits.len() == 0 {
        None
    } else {
        digits_value(digits)
    }
}

/// More digits make no smaller number, and do not mend what was no number.
proof fn lemma_digits_grow(digits: Seq<char>, n: int)
    requires
        0 <= n <= digits.len(),
    ensures
        digits_value(digits) is Some ==> digits_value(digits.take(n)) is Some && digits_value(
            digits.take(n),
        )->0 <= digits_value(digits)->0,
    decreases digits.len(),
{
    if n == digits.len() {
        assert(digits.take(n) == digits);
    } else {
        assert(digits.drop_last().take(n) == digits.take(n));
        lemma_digits_grow(digits.drop_last(), n);
    }
}

/// The number that `text` stands for, where it is no larger than `max`.
pub fn parse_unsigned(text: &str, max: u64) -> (r: Option<u64>)
    ensures
        match r {
            Some(n) => unsigned_value(text@) == Some(n as nat) && n <= max,
            None => unsigned_value(text@) is None || unsigned_value(text@)->0 > max,
        },
{
    let chars: Vec<char> = characters(text);
    let mut i: usize = 0;
    if chars.len() > 0 && chars[0] == '+' {
        i = 1;
    }
    if i == chars.len() {
        return None;
    }
    let ghost first = i as int;
    let ghost digits = text@.skip(first);
    assert(first == 1 ==> digits == text@.drop_first());
    assert(first == 0 ==> digits == text@);
    let mut n: u64 = 0;
    assert(digits.take(0) == Seq::<char>::empty());
    while i < chars.len()
        invariant
            chars@ == text@,
            0 <= first <= i <= chars.len(),
            first < chars.len(),
            digits == text@.skip(first),
            digits.len() > 0,
            unsigned_value(text@) == digits_value(digits),
            n <= max,
            digits_value(digits.take(i - first)) == Some(n as nat),
        decreases chars.len() - i,
    {
        let c: char = chars[i];
        let ghost next = digits.take(i - first + 1);
        proof {
            assert(next.drop_last() == digits.take(i - first));
            assert(next.last() == c);
            lemma_digits_grow(digits, i - first + 1);
        }
        if c < '0' || c > '9' {
            return None;
        }
        let d: u64 = c as u64 - '0' as u64;
        if n > max / 10 || d > max - 10 * n {
            return None;
        }
        n = 10 * n + d;
        i = i + 1;
    }
    assert(digits.take(i - first) == digits);
    Some(n)
}

/// The decimal digit `d`.
pub open spec fn digit(d: int) -> char
    recommends
        0 <= d < 10,
{
    ('0' as u32 + d) as char
}

/// `n` in decimal, without leading zeros.
pub open spec fn decimal(n: nat) -> Seq<char>
    decreases n,
{
    if n < 10 {
        seq![digit(n as int)]
    } else {
        decimal(n / 10).push(digit((n % 10) as int))
    }
}

/// The text of one decimal digit.
fn digit_text(d: u64) -> (r: &'static str)
    requires
        d < 10,
    ensures
        r@ == seq![digit(d as int)],
{
    proof {
        reveal_strlit("0");
        reveal_strlit("1");
        reveal_strlit("2");
        reveal_strlit("3");
        reveal_strlit("4");
        reveal_strlit("5");
        reveal_strlit("6");
        reveal_strlit("7");
        reveal_strlit("8");
        reveal_strlit("9");
    }
    let r: &'static str = match d {
        0 => "0",
        1 => "1",
        2 => "2",
        3 => "3",
        4 => "4",
        5 => "5",
        6 => "6",
        7 => "7",
        8 => "8",
        _ => "9",
    };
    assert(r@ =~= seq![digit(d as int)]);
    r
}

/// `n` in decimal, without leading zeros.
pub fn decimal_text(n: u64) -> (r: String)
    ensures
        r@ == decimal(n as nat),
    decreases n,
{
    if n < 10 {
        digit_text(n).to_owned()
    } else {
        let mut r: String = decimal_text(n / 10);
        r.append(digit_text(n % 10));
        assert(r@ =~= decimal(n as nat));
        r
    }
}

/// The three texts one after the other.
pub fn concatenated(a: &str, b: &str, c: &str) -> (r: String)
    ensures
        r@ == a@ + b@ + c@,
{
    let mut r: String = a.to_owned();
    r.append(b);
    r.append(c);
    r
}

} // verus!
