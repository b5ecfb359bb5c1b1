//! Building blocks of the exposition text: decimal numbers, escaped strings
//! and separated lists, each with the function that writes it.

use vstd::prelude::*;

verus! {

/// The character of one decimal digit.
pub open spec fn digit(d: int) -> char
    recommends
        0 <= d < 10,
{
    (d + 48) as char
}

/// The decimal notation of `n`, without leading zeros; `"0"` for zero.
pub open spec fn decimal(n: nat) -> Seq<char>
    decreases n,
{
    if n < 10 {
        seq![digit(n as int)]
    } else {
        decimal(n / 10).push(digit((n % 10) as int))
    }
}

/// What one character becomes in escaped text: a backslash is doubled, a
/// line feed becomes a backslash and `n`, and, inside quotes, a double quote
/// gets a backslash in front. Every other character stands for itself.
pub open spec fn escaped_char(c: char, in_quotes: bool) -> Seq<char> {
    if c == '\\' {
        seq!['\\', '\\']
    } else if c == '\n' {
        seq!['\\', 'n']
    } else if c == '"' && in_quotes {
        seq!['\\', '"']
    } else {
        seq![c]
    }
}

/// The text `s` with each character escaped, in order.
pub open spec fn escaped(s: Seq<char>, in_quotes: bool) -> Seq<char>
    decreases s.len(),
{
    if s.len() == 0 {
        Seq::empty()
    } else {
        escaped_char(s[0], in_quotes) + escaped(s.drop_first(), in_quotes)
    }
}

/// The parts in order, with `sep` between each two neighbours.
pub open spec fn joined(parts: Seq<Seq<char>>, sep: Seq<char>) -> Seq<char>
    decreases parts.len(),
{
    if parts.len() == 0 {
        Seq::empty()
    } else if parts.len() == 1 {
        parts[0]
    } else {
        joined(parts.drop_last(), sep) + sep + parts.last()
    }
}

/// Escaping a text that ends in `c` is escaping the text before it and then `c`.
pub proof fn lemma_escaped_push(s: Seq<char>, c: char, in_quotes: bool)
    ensures
        escaped(s.push(c), in_quotes) == escaped(s, in_quotes) + escaped_char(c, in_quotes),
    decreases s.len(),
{
    if s.len() == 0 {
        assert(s.push(c).drop_first() =~= Seq::<char>::empty());
        assert(escaped(Seq::<char>::empty(), in_quotes) =~= Seq::<char>::empty());
        assert(escaped(s.push(c), in_quotes) =~= escaped_char(c, in_quotes));
    } else {
        assert(s.push(c).drop_first() =~= s.drop_first().push(c));
        lemma_escaped_push(s.drop_first(), c, in_quotes);
        assert(escaped(s.push(c), in_quotes) =~= escaped(s, in_quotes) + escaped_char(
            c,
            in_quotes,
        ));
    }
}

/// The number that a text of decimal digits stands for.
pub open spec fn decimal_value(s: Seq<char>) -> nat
    decreases s.len(),
{
    if s.len() == 0 {
        0
    } else {
        (decimal_value(s.drop_last()) * 10 + (s.last() as int - 48)) as nat
    }
}

/// Reading a number back from its decimal notation gives the number.
pub proof fn lemma_decimal_round_trip(n: nat)
    ensures
        decimal_value(decimal(n)) == n,
    decreases n,
{
    if n < 10 {
        let s = decimal(n);
        assert(s.drop_last() =~= Seq::<char>::empty());
        assert(decimal_value(s.drop_last()) == 0);
        assert(s.last() as int == n + 48);
    } else {
        let s = decimal(n);
        lemma_decimal_round_trip(n / 10);
        assert(s.drop_last() =~= decimal(n / 10));
        assert(s.last() as int == n % 10 + 48);
    }
}

/// Two numbers with the same decimal notation are the same number.
pub proof fn lemma_decimal_is_injective(a: nat, b: nat)
    requires
        decimal(a) == decimal(b),
    ensures
        a == b,
{
    lemma_decimal_round_trip(a);
    lemma_decimal_round_trip(b);
}

/// Two texts that begin alike go on alike.
pub proof fn lemma_strip_prefix(prefix: Seq<char>, left: Seq<char>, right: Seq<char>)
    requires
        prefix + left == prefix + right,
    ensures
        left == right,
{
    assert(left =~= (prefix + left).skip(prefix.len() as int));
    assert(right =~= (prefix + right).skip(prefix.len() as int));
}

/// The first part stands in front, and the others follow it joined, each
/// with a separator before it.
pub proof fn lemma_joined_front(parts: Seq<Seq<char>>, sep: Seq<char>)
    requires
        parts.len() > 0,
    ensures
        joined(parts, sep) == if parts.len() == 1 {
            parts[0]
        } else {
            parts[0] + sep + joined(parts.drop_first(), sep)
        },
    decreases parts.len(),
{
    if parts.len() == 2 {
        assert(parts.drop_last().len() == 1);
        assert(parts.drop_first().len() == 1);
        assert(joined(parts.drop_last(), sep) == parts[0]);
        assert(joined(parts.drop_first(), sep) == parts[1]);
    } else if parts.len() > 2 {
        lemma_joined_front(parts.drop_last(), sep);
        assert(parts.drop_last().drop_first() =~= parts.drop_first().drop_last());
        assert(parts.drop_first().last() == parts.last());
        assert(joined(parts, sep) =~= parts[0] + sep + joined(parts.drop_first(), sep));
    }
}

/// Escaped text inside quotes ends where the first bare double quote
/// stands: two such texts that agree up to and beyond their closing quotes
/// come from the same text and go on alike.
pub proof fn lemma_escaped_ends_at_quote(a: Seq<char>, b: Seq<char>, x: Seq<char>, y: Seq<char>)
    requires
        escaped(a, true) + seq!['"'] + x == escaped(b, true) + seq!['"'] + y,
    ensures
        a == b,
        x == y,
    decreases a.len(),
{
    let left = escaped(a, true) + seq!['"'] + x;
    let right = escaped(b, true) + seq!['"'] + y;
    if a.len() == 0 || b.len() == 0 {
        if a.len() == 0 {
            assert(left[0] == '"');
        } else {
            let head = escaped_char(a[0], true);
            assert(left[0] == head[0]);
        }
        if b.len() == 0 {
            assert(right[0] == '"');
        } else {
            let head = escaped_char(b[0], true);
            assert(right[0] == head[0]);
        }
        assert(a.len() == 0 && b.len() == 0);
        assert(a =~= b);
        assert(x =~= left.skip(1));
        assert(y =~= right.skip(1));
    } else {
        let head_a = escaped_char(a[0], true);
        let head_b = escaped_char(b[0], true);
        let rest_a = escaped(a.drop_first(), true) + seq!['"'] + x;
        let rest_b = escaped(b.drop_first(), true) + seq!['"'] + y;
        assert(left =~= head_a + rest_a);
        assert(right =~= head_b + rest_b);
        assert(left[0] == head_a[0]);
        assert(right[0] == head_b[0]);
        if head_a.len() == 2 {
            assert(left[1] == head_a[1]);
        }
        if head_b.len() == 2 {
            assert(right[1] == head_b[1]);
        }
        assert(a[0] == b[0]);
        assert(rest_a =~= left.skip(head_a.len() as int));
        assert(rest_b =~= right.skip(head_b.len() as int));
        lemma_escaped_ends_at_quote(a.drop_first(), b.drop_first(), x, y);
        assert(a =~= seq![a[0]] + a.drop_first());
        assert(b =~= seq![b[0]] + b.drop_first());
    }
}

/// Appends one character to a string.
///
/// Stands for `String::push` of the standard library, which adds the given
/// character at the end and leaves what was there before in place.
#[verifier::external_body]
pub(crate) fn push_char(s: &mut String, c: char)
    ensures
        final(s)@ == old(s)@.push(c),
{
    s.push(c);
}

fn digit_of(d: u8) -> (c: char)
    requires
        d < 10,
    ensures
        c == digit(d as int),
{
    (d + 48) as char
}

/// Writes `n` in decimal notation at the end of `out`.
pub fn push_decimal(out: &mut String, n: u64)
    ensures
        final(out)@ == old(out)@ + decimal(n as nat),
    decreases n,
{
    if n >= 10 {
        push_decimal(out, n / 10);
    }
    push_char(out, digit_of((n % 10) as u8));
    assert(out@ =~= old(out)@ + decimal(n as nat));
}

/// Writes `s` at the end of `out`, escaped.
pub fn push_escaped(out: &mut String, s: &str, in_quotes: bool)
    ensures
        final(out)@ == old(out)@ + escaped(s@, in_quotes),
{
    broadcast use vstd::string::group_string_axioms;

    for c in it: s.chars()
        invariant
            it.seq() == s@,
            out@ == old(out)@ + escaped(s@.take(it.index() as int), in_quotes),
    {
        proof {
            let done = s@.take(it.index() as int);
            assert(s@.take(it.index() + 1) =~= done.push(c));
            lemma_escaped_push(done, c, in_quotes);
        }
        if c == '\\' {
            push_char(out, '\\');
            push_char(out, '\\');
        } else if c == '\n' {
            push_char(out, '\\');
            push_char(out, 'n');
        } else if c == '"' && in_quotes {
            push_char(out, '\\');
            push_char(out, '"');
        } else {
            push_char(out, c);
        }
        assert(out@ =~= old(out)@ + escaped(s@.take(it.index() + 1), in_quotes));
    }
    assert(s@.take(s@.len() as int) =~= s@);
}

} // verus!
