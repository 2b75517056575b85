use vstd::prelude::*;
use vstd::string::*;

verus! {

/// The character that writes the decimal digit `d`.
pub open spec fn digit_char(d: int) -> char {
    if d == 0 {
        '0'
    } else if d == 1 {
        '1'
    } else if d == 2 {
        '2'
    } else if d == 3 {
        '3'
    } else if d == 4 {
        '4'
    } else if d == 5 {
        '5'
    } else if d == 6 {
        '6'
    } else if d == 7 {
        '7'
    } else if d == 8 {
        '8'
    } else {
        '9'
    }
}

/// Whether `c` is one of the ten decimal digits.
pub open spec fn is_digit(c: char) -> bool {
    '0' <= c && c <= '9'
}

/// The decimal notation of `n`, most significant digit first, without sign
/// or leading zeros.
pub open spec fn decimal(n: nat) -> Seq<char>
    decreases n,
{
    if n < 10 {
        seq![digit_char(n as int)]
    } else {
        decimal(n / 10).push(digit_char((n % 10) as int))
    }
}

/// Whether `c` may open an identifier: an ASCII letter or an underscore.
pub open spec fn is_ident_start(c: char) -> bool {
    c == '_' || ('a' <= c && c <= 'z') || ('A' <= c && c <= 'Z')
}

/// Whether `c` may stand inside an identifier: an ASCII letter, a decimal
/// digit or an underscore.
pub open spec fn is_ident_continue(c: char) -> bool {
    is_ident_start(c) || is_digit(c)
}

/// Whether `s` is an identifier: not empty, opened by a letter or an
/// underscore, made of letters, digits and underscores only, and more than
/// an underscore alone.
pub open spec fn is_identifier(s: Seq<char>) -> bool {
    &&& s.len() > 0
    &&& is_ident_start(s[0])
    &&& forall|i: int| 0 <= i < s.len() ==> is_ident_continue(#[trigger] s[i])
    &&& s.len() > 1 || s[0] != '_'
}

/// Whether every character of `s` may stand inside an identifier.
pub open spec fn is_ident_tail(s: Seq<char>) -> bool {
    forall|i: int| 0 <= i < s.len() ==> is_ident_continue(#[trigger] s[i])
}

/// Every character of a decimal notation is a digit.
pub proof fn lemma_decimal_digits(n: nat)
    ensures
        decimal(n).len() > 0,
        forall|i: int| 0 <= i < decimal(n).len() ==> is_digit(#[trigger] decimal(n)[i]),
        is_ident_tail(decimal(n)),
    decreases n,
{
    if n >= 10 {
        lemma_decimal_digits(n / 10);
    }
}

/// An identifier stays one when characters that may stand inside an
/// identifier are appended to it, and an underscore becomes one when at
/// least one such character is.
pub proof fn lemma_identifier_append(head: Seq<char>, tail: Seq<char>)
    requires
        is_identifier(head) || (head == seq!['_'] && tail.len() > 0),
        is_ident_tail(tail),
    ensures
        is_identifier(head + tail),
{
    let s = head + tail;
    assert(s[0] == head[0]);
    assert forall|i: int| 0 <= i < s.len() implies is_ident_continue(#[trigger] s[i]) by {
        if i < head.len() {
            assert(s[i] == head[i]);
        } else {
            assert(s[i] == tail[i - head.len()]);
        }
    }
}

/// The digit that the character `c` writes.
pub open spec fn digit_value(c: char) -> nat {
    if c == '1' {
        1
    } else if c == '2' {
        2
    } else if c == '3' {
        3
    } else if c == '4' {
        4
    } else if c == '5' {
        5
    } else if c == '6' {
        6
    } else if c == '7' {
        7
    } else if c == '8' {
        8
    } else if c == '9' {
        9
    } else {
        0
    }
}

/// The number that the digits `s` write in decimal notation.
pub open spec fn decimal_value(s: Seq<char>) -> nat
    decreases s.len(),
{
    if s.len() == 0 {
        0
    } else {
        10 * decimal_value(s.drop_last()) + digit_value(s.last())
    }
}

/// The decimal notation of a number writes that number: so two numbers
/// with the same notation are the same.
pub proof fn lemma_decimal_value(n: nat)
    ensures
        decimal_value(decimal(n)) == n,
    decreases n,
{
    assert(decimal_value(Seq::<char>::empty()) == 0);
    if n < 10 {
        assert(decimal(n).drop_last() =~= Seq::<char>::empty());
        assert(decimal(n).last() == digit_char(n as int));
    } else {
        lemma_decimal_value(n / 10);
        assert(decimal(n).drop_last() =~= decimal(n / 10));
        assert(decimal(n).last() == digit_char((n % 10) as int));
    }
}

/// Where two texts are equal, and each is something that does not end in
/// a digit followed by a run of digits, the runs are equal and so is what
/// stands before them.
pub proof fn lemma_digits_split_back(x: Seq<char>, a: Seq<char>, y: Seq<char>, b: Seq<char>)
    requires
        x + a == y + b,
        forall|i: int| 0 <= i < a.len() ==> is_digit(#[trigger] a[i]),
        forall|i: int| 0 <= i < b.len() ==> is_digit(#[trigger] b[i]),
        x.len() == 0 || !is_digit(x.last()),
        y.len() == 0 || !is_digit(y.last()),
    ensures
        a == b,
        x == y,
{
    let whole = x + a;
    assert(whole.len() == (y + b).len());
    assert(x.len() + a.len() == y.len() + b.len());
    if x.len() < y.len() {
        assert(whole[y.len() - 1] == a[y.len() - 1 - x.len()]);
        assert((y + b)[y.len() - 1] == y.last());
    }
    if y.len() < x.len() {
        assert((y + b)[x.len() - 1] == b[x.len() - 1 - y.len()]);
        assert(whole[x.len() - 1] == x.last());
    }
    assert(x =~= y) by {
        assert forall|i: int| 0 <= i < x.len() implies x[i] == y[i] by {
            assert(whole[i] == x[i]);
            assert((y + b)[i] == y[i]);
        }
    }
    assert(a =~= b) by {
        assert forall|i: int| 0 <= i < a.len() implies a[i] == b[i] by {
            assert(whole[x.len() + i] == a[i]);
            assert((y + b)[y.len() + i] == b[i]);
        }
    }
}

/// Where two texts end alike, and before that end each is a number in
/// decimal notation behind something that does not end in a digit, the
/// numbers are the same and so is what stands before them.
pub proof fn lemma_number_field(
    head1: Seq<char>,
    n1: nat,
    head2: Seq<char>,
    n2: nat,
    end: Seq<char>,
)
    requires
        head1 + decimal(n1) + end == head2 + decimal(n2) + end,
        head1.len() == 0 || !is_digit(head1.last()),
        head2.len() == 0 || !is_digit(head2.last()),
    ensures
        head1 == head2,
        n1 == n2,
{
    let a = head1 + decimal(n1);
    let b = head2 + decimal(n2);
    assert((a + end).len() == (b + end).len());
    assert(a =~= (a + end).take(a.len() as int));
    assert(b =~= (b + end).take(b.len() as int));
    lemma_decimal_digits(n1);
    lemma_decimal_digits(n2);
    lemma_digits_split_back(head1, decimal(n1), head2, decimal(n2));
    lemma_decimal_value(n1);
    lemma_decimal_value(n2);
}

/// The one-character text of the digit `d`.
fn digit_str(d: usize) -> (r: &'static str)
    requires
        d < 10,
    ensures
        r@ == seq![digit_char(d as int)],
{
    let r = if d == 0 {
        "0"
    } else if d == 1 {
        "1"
    } else if d == 2 {
        "2"
    } else if d == 3 {
        "3"
    } else if d == 4 {
        "4"
    } else if d == 5 {
        "5"
    } else if d == 6 {
        "6"
    } else if d == 7 {
        "7"
    } else if d == 8 {
        "8"
    } else {
        "9"
    };
    proof {
        reveal_strlit("0");
        reveal_strlit("1");
        reveal_strlit("2");
        reveal_strlit("3");
        reveal_strlit("4");
        reveal_strlit("5");
        reveal_strlit("6");
        reveal_strlit("7");
        reveal_strlit("8");
        reveal_strlit("9");
        assert(r@ =~= seq![digit_char(d as int)]);
    }
    r
}

/// Appends the decimal notation of `n` to `out`.
pub fn push_decimal(out: &mut String, n: usize)
    ensures
        final(out)@ == old(out)@ + decimal(n as nat),
    decreases n,
{
    if n >= 10 {
        push_decimal(out, n / 10);
    }
    out.append(digit_str(n % 10));
    assert(out@ =~= old(out)@ + decimal(n as nat));
}

/// The decimal notation of `n` as a string.
pub fn decimal_string(n: usize) -> (r: String)
    ensures
        r@ == decimal(n as nat),
{
    let mut r = String::new();
    push_decimal(&mut r, n);
    assert(r@ =~= decimal(n as nat));
    r
}

} // verus!
