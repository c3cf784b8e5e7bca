//! What reading and writing texts promises.
use crate::text::{
    decimal, digit, digits_value, lemma_until_separator_bounds, separator, tokens, trimmed,
    unsigned_value, until_separator, white_space,
};
use vstd::prelude::*;

verus! {

/// A number that is written in decimal is read as the same number, with or without a sign.
pub proof fn law_decimal_reads_back(n: nat)
    ensures
        unsigned_value(decimal(n)) == Some(n),
        unsigned_value(seq!['+'] + decimal(n)) == Some(n),
{
    lemma_digits_read_back(n);
    let text = decimal(n);
    assert((seq!['+'] + text).drop_first() == text);
    assert((seq!['+'] + text)[0] == '+');
}

/// Decimal digits are read as the number that they were written for.
proof fn lemma_digits_read_back(n: nat)
    ensures
        digits_value(decimal(n)) == Some(n),
        decimal(n).len() > 0,
        decimal(n)[0] != '+',
    decreases n,
{
    reveal_with_fuel(digits_value, 2);
    if n < 10 {
        let text = decimal(n);
        assert(text.drop_last() == Seq::<char>::empty());
        assert(text.last() == digit(n as int));
    } else {
        lemma_digits_read_back(n / 10);
        let text = decimal(n);
        assert(text.drop_last() == decimal(n / 10));
        assert(text.last() == digit((n % 10) as int));
        assert(text[0] == decimal(n / 10)[0]);
    }
}

/// Trimming takes white space from both ends, and nothing else: what is left stands in the
/// text as it is, has no white space at its ends, and all around it is white space.
pub proof fn law_trimming_takes_white_space(text: Seq<char>) -> (r: (int, int))
    ensures
        0 <= r.0 <= r.1 <= text.len(),
        trimmed(text) == text.subrange(r.0, r.1),
        forall|i: int| 0 <= i < r.0 ==> white_space(#[trigger] text[i]),
        forall|i: int| r.1 <= i < text.len() ==> white_space(#[trigger] text[i]),
        r.0 < r.1 ==> !white_space(text[r.0]) && !white_space(text[r.1 - 1]),
    decreases text.len(),
{
    if text.len() == 0 {
        assert(text.subrange(0, 0) == text);
        (0, 0)
    } else if white_space(text[0]) {
        let shorter = text.drop_first();
        let (a, b) = law_trimming_takes_white_space(shorter);
        assert(shorter.subrange(a, b) == text.subrange(a + 1, b + 1));
        assert forall|i: int| 0 <= i < a + 1 implies white_space(#[trigger] text[i]) by {
            if i > 0 {
                assert(shorter[i - 1] == text[i]);
            }
        }
        assert forall|i: int| b + 1 <= i < text.len() implies white_space(#[trigger] text[i]) by {
            assert(shorter[i - 1] == text[i]);
        }
        (a + 1, b + 1)
    } else if white_space(text.last()) {
        let shorter = text.drop_last();
        let (a, b) = law_trimming_takes_white_space(shorter);
        assert(shorter.subrange(a, b) == text.subrange(a, b));
        assert forall|i: int| 0 <= i < a implies white_space(#[trigger] text[i]) by {
            assert(shorter[i] == text[i]);
        }
        assert forall|i: int| b <= i < text.len() implies white_space(#[trigger] text[i]) by {
            if i < text.len() - 1 {
                assert(shorter[i] == text[i]);
            }
        }
        (a, b)
    } else {
        assert(text.subrange(0, text.len() as int) == text);
        (0, text.len() as int)
    }
}

/// The first separator of a text that is continued.
proof fn lemma_until_separator_continued(a: Seq<char>, c: char, b: Seq<char>)
    requires
        separator(c),
    ensures
        until_separator(a.push(c) + b) == until_separator(a),
    decreases a.len(),
{
    let all = a.push(c) + b;
    if a.len() == 0 {
        assert(all[0] == c);
    } else {
        assert(all[0] == a[0]);
        if !separator(a[0]) {
            assert(all.drop_first() == a.drop_first().push(c) + b);
            lemma_until_separator_continued(a.drop_first(), c, b);
        }
    }
}

/// Two lists with a blank or a comma between them are one list of the entries of both.
pub proof fn law_lists_are_joined(a: Seq<char>, c: char, b: Seq<char>)
    requires
        c == ' ' || c == ',',
    ensures
        tokens(a.push(c) + b) == tokens(a) + tokens(b),
    decreases a.len(),
{
    let all = a.push(c) + b;
    let n = until_separator(a);
    lemma_until_separator_continued(a, c, b);
    lemma_until_separator_bounds(a);
    assert(all.take(n) == a.take(n));
    if n == a.len() {
        assert(all.skip(n + 1) == b);
        assert(a.take(n) == a);
    } else {
        assert(all.skip(n + 1) == a.skip(n + 1).push(c) + b);
        law_lists_are_joined(a.skip(n + 1), c, b);
    }
    assert(tokens(all) =~= tokens(a) + tokens(b));
}

/// A text without blanks and commas is one entry, unless it is empty when trimmed.
pub proof fn law_one_entry(text: Seq<char>)
    requires
        forall|i: int| 0 <= i < text.len() ==> (#[trigger] text[i]) != ' ' && text[i] != ',',
    ensures
        trimmed(text).len() == 0 ==> tokens(text) == Seq::<Seq<char>>::empty(),
        trimmed(text).len() > 0 ==> tokens(text) == seq![trimmed(text)],
{
    lemma_no_separator(text);
    assert(text.take(text.len() as int) == text);
}

/// A text without separators goes to its end.
proof fn lemma_no_separator(text: Seq<char>)
    requires
        forall|i: int| 0 <= i < text.len() ==> (#[trigger] text[i]) != ' ' && text[i] != ',',
    ensures
        until_separator(text) == text.len(),
    decreases text.len(),
{
    if text.len() > 0 {
        let shorter = text.drop_first();
        assert forall|i: int| 0 <= i < shorter.len() implies (#[trigger] shorter[i]) != ' '
            && shorter[i] != ',' by {
            assert(shorter[i] == text[i + 1]);
        }
        lemma_no_separator(shorter);
    }
}

} // verus!
