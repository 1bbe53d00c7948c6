//! Decimal text of a reference, and the markers that may stand before it.

use vstd::prelude::*;
use vstd::string::StringExecFns;

verus! {

/// The character of the decimal digit `d`.
pub open spec fn digit_char(d: nat) -> char {
    if d == 0 {
        '0'
    } else if d == 1 {
        '1'
    } else if d == 2 {
        '2'
    } else if d == 3 {
        '3'
    } else if d == 4 {
        '4'
    } else if d == 5 {
        '5'
    } else if d == 6 {
        '6'
    } else if d == 7 {
        '7'
    } else if d == 8 {
        '8'
    } else {
        '9'
    }
}

/// The decimal numeral of `n`, without leading zeros.
pub open spec fn decimal(n: nat) -> Seq<char>
    decreases n,
{
    if n < 10 {
        seq![digit_char(n)]
    } else {
        decimal(n / 10).push(digit_char(n % 10))
    }
}

/// The text of a reference: under `debug` a `~` before a missing one and a
/// `*` before one met again, then its decimal numeral.
pub open spec fn index_text(index: usize, is_missing: bool, is_visited: bool, debug: bool) -> Seq<
    char,
> {
    let marker = if debug && is_missing {
        seq!['~']
    } else if debug && is_visited {
        seq!['*']
    } else {
        Seq::<char>::empty()
    };
    marker + decimal(index as nat)
}

/// How often the character `c` stands in `text`.
pub open spec fn count_of(text: Seq<char>, c: char) -> nat
    decreases text.len(),
{
    if text.len() == 0 {
        0
    } else {
        count_of(text.drop_last(), c) + if text.last() == c {
            1nat
        } else {
            0nat
        }
    }
}

/// Whether `c` is one of the characters that give a rendering its
/// structure: a parenthesis, the space, or the colon.
pub open spec fn is_punctuation(c: char) -> bool {
    c == '(' || c == ')' || c == ' ' || c == ':'
}

/// A character stands in a joined text as often as in its two parts
/// together.
pub proof fn lemma_count_of_joined(first: Seq<char>, second: Seq<char>, c: char)
    ensures
        count_of(first + second, c) == count_of(first, c) + count_of(second, c),
    decreases second.len(),
{
    if second.len() == 0 {
        assert(first + second =~= first);
    } else {
        lemma_count_of_joined(first, second.drop_last(), c);
        assert((first + second).drop_last() =~= first + second.drop_last());
    }
}

/// A text of one character holds that character once and no other.
pub proof fn lemma_count_of_one(only: char, c: char)
    ensures
        count_of(seq![only], c) == if only == c {
            1nat
        } else {
            0nat
        },
{
    assert(seq![only].drop_last() =~= Seq::<char>::empty());
    assert(count_of(seq![only].drop_last(), c) == 0);
}

/// A decimal numeral holds no punctuation.
pub proof fn lemma_decimal_is_plain(n: nat, c: char)
    requires
        is_punctuation(c),
    ensures
        count_of(decimal(n), c) == 0,
    decreases n,
{
    if n < 10 {
        lemma_count_of_one(digit_char(n), c);
    } else {
        lemma_decimal_is_plain(n / 10, c);
        lemma_count_of_one(digit_char(n % 10), c);
        lemma_count_of_joined(decimal(n / 10), seq![digit_char(n % 10)], c);
        assert(decimal(n / 10).push(digit_char(n % 10)) =~= decimal(n / 10) + seq![
            digit_char(n % 10),
        ]);
    }
}

/// The text of a reference holds no punctuation.
pub proof fn lemma_index_text_is_plain(
    index: usize,
    is_missing: bool,
    is_visited: bool,
    debug: bool,
    c: char,
)
    requires
        is_punctuation(c),
    ensures
        count_of(index_text(index, is_missing, is_visited, debug), c) == 0,
{
    let marker = if debug && is_missing {
        seq!['~']
    } else if debug && is_visited {
        seq!['*']
    } else {
        Seq::<char>::empty()
    };
    lemma_decimal_is_plain(index as nat, c);
    lemma_count_of_one('~', c);
    lemma_count_of_one('*', c);
    lemma_count_of_joined(marker, decimal(index as nat), c);
}

/// The one-character text of the decimal digit `d`.
fn digit_text(d: usize) -> (text: &'static str)
    requires
        d < 10,
    ensures
        text@ == seq![digit_char(d as nat)],
{
    proof {
        reveal_strlit("0");
        reveal_strlit("1");
        reveal_strlit("2");
        reveal_strlit("3");
        reveal_strlit("4");
        reveal_strlit("5");
        reveal_strlit("6");
        reveal_strlit("7");
        reveal_strlit("8");
        reveal_strlit("9");
    }
    let text = if d == 0 {
        "0"
    } else if d == 1 {
        "1"
    } else if d == 2 {
        "2"
    } else if d == 3 {
        "3"
    } else if d == 4 {
        "4"
    } else if d == 5 {
        "5"
    } else if d == 6 {
        "6"
    } else if d == 7 {
        "7"
    } else if d == 8 {
        "8"
    } else {
        "9"
    };
    assert(text@ =~= seq![digit_char(d as nat)]);
    text
}

/// Appends the decimal numeral of `n`.
pub fn append_decimal(sb: &mut String, n: usize)
    ensures
        final(sb)@ == old(sb)@ + decimal(n as nat),
    decreases n,
{
    if n >= 10 {
        append_decimal(sb, n / 10);
    }
    sb.append(digit_text(n % 10));
    assert(sb@ =~= old(sb)@ + decimal(n as nat));
}

/// Appends the text of a reference, with its marker where `render_debug`
/// asks for one.
pub fn append_index(
    sb: &mut String,
    index: usize,
    is_missing: bool,
    is_visited: bool,
    render_debug: bool,
)
    ensures
        final(sb)@ == old(sb)@ + index_text(index, is_missing, is_visited, render_debug),
{
    proof {
        reveal_strlit("~");
        reveal_strlit("*");
    }
    if render_debug {
        if is_missing {
            sb.append("~");
        } else if is_visited {
            sb.append("*");
        }
    }
    append_decimal(sb, index);
    assert(sb@ =~= old(sb)@ + index_text(index, is_missing, is_visited, render_debug));
}

} // verus!
