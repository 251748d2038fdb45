//! What the operations on texts do.
use crate::laws::rendering::blank;
use crate::text;
use vstd::prelude::*;
use vstd::string::*;

verus! {

/// A space, a tab and a line end are white space; no visible character of ASCII is.
pub proof fn law_white_space_of_ascii(c: char)
    requires
        (c as u32) < 0x80,
    ensures
        text::is_space(c) == (c == ' ' || c == '\t' || c == '\n' || c == '\r' || c == '\u{b}' || c
            == '\u{c}'),
{
}

/// Letters and digits of ASCII are what they are called.
pub proof fn law_letters_and_digits(c: char)
    ensures
        text::is_digit(c) == (48 <= c as u32 <= 57),
        text::is_letter(c) == (65 <= c as u32 <= 90 || 97 <= c as u32 <= 122),
        text::is_alnum(c) == (48 <= c as u32 <= 57 || 65 <= c as u32 <= 90 || 97 <= c as u32
            <= 122),
        text::is_control(c) && (c as u32) < 0x80 ==> (c as u32) < 32 || c as u32 == 127,
        (c as u32) < 32 ==> text::is_control(c),
{
}

proof fn lemma_trim_start(a: Seq<char>, m: Seq<char>)
    requires
        blank(a),
        m.len() > 0 ==> !text::is_space(m[0]),
    ensures
        text::trim_start(a + m) == m,
    decreases a.len(),
{
    if a.len() == 0 {
        assert(a + m =~= m);
    } else {
        assert(text::is_space(a[0]));
        let less = a.drop_first();
        assert((a + m).drop_first() =~= less + m);
        assert forall|i: int| 0 <= i < less.len() implies text::is_space(#[trigger] less[i]) by {
            assert(less[i] == a[i + 1]);
        }
        lemma_trim_start(less, m);
    }
}

proof fn lemma_trim_end(m: Seq<char>, b: Seq<char>)
    requires
        blank(b),
        m.len() > 0 ==> !text::is_space(m.last()),
    ensures
        text::trim_end(m + b) == m,
    decreases b.len(),
{
    if b.len() == 0 {
        assert(m + b =~= m);
    } else {
        assert(text::is_space(b[b.len() - 1]));
        let less = b.drop_last();
        assert((m + b).drop_last() =~= m + less);
        assert forall|i: int| 0 <= i < less.len() implies text::is_space(#[trigger] less[i]) by {
            assert(less[i] == b[i]);
        }
        lemma_trim_end(m, less);
    }
}

/// Trimming takes the white space off both ends of a text, and nothing else.
pub proof fn law_trimming_takes_the_ends_off(a: Seq<char>, m: Seq<char>, b: Seq<char>)
    requires
        blank(a),
        blank(b),
        m.len() > 0 ==> !text::is_space(m[0]) && !text::is_space(m.last()),
    ensures
        text::trimmed(a + m + b) == m,
{
    if m.len() == 0 {
        assert(m =~= Seq::<char>::empty());
        let all = a + m + b;
        assert forall|i: int| 0 <= i < all.len() implies text::is_space(#[trigger] all[i]) by {
            if i < a.len() {
                assert(all[i] == a[i]);
            } else {
                assert(all[i] == b[i - a.len()]);
            }
        }
        lemma_trim_start(all, m);
        assert(all + m =~= all);
    } else {
        assert(a + m + b =~= a + (m + b));
        assert((m + b)[0] == m[0]);
        lemma_trim_start(a, m + b);
        lemma_trim_end(m, b);
    }
}

/// Every text is some white space, what trimming leaves, and some white space.
pub proof fn law_trimmed_text_is_the_middle(s: Seq<char>) -> (r: (Seq<char>, Seq<char>))
    ensures
        blank(r.0),
        blank(r.1),
        s == r.0 + text::trimmed(s) + r.1,
        text::trimmed(s).len() > 0 ==> !text::is_space(text::trimmed(s)[0]) && !text::is_space(
            text::trimmed(s).last(),
        ),
        text::trimmed(s).len() == 0 <==> blank(s),
{
    let a = lemma_start_is(s);
    let t = text::trim_start(s);
    let b = lemma_end_is(t);
    let m = text::trimmed(s);
    assert(s =~= a + m + b);
    if m.len() > 0 {
        assert(t[0] == m[0]);
    }
    if blank(s) {
        let none = Seq::<char>::empty();
        assert(none + none + s =~= s);
        law_trimming_takes_the_ends_off(none, none, s);
    }
    if m.len() == 0 {
        assert forall|i: int| 0 <= i < s.len() implies text::is_space(#[trigger] s[i]) by {
            if i < a.len() {
                assert(s[i] == a[i]);
            } else {
                assert(s[i] == b[i - a.len()]);
            }
        }
    }
    (a, b)
}

proof fn lemma_start_is(s: Seq<char>) -> (a: Seq<char>)
    ensures
        blank(a),
        s == a + text::trim_start(s),
        text::trim_start(s).len() > 0 ==> !text::is_space(text::trim_start(s)[0]),
    decreases s.len(),
{
    if s.len() > 0 && text::is_space(s[0]) {
        let a = lemma_start_is(s.drop_first());
        let r = seq![s[0]] + a;
        let t = text::trim_start(s);
        assert(s =~= seq![s[0]] + s.drop_first());
        assert(s.drop_first() == a + t);
        assert(seq![s[0]] + (a + t) =~= r + t);
        assert forall|i: int| 0 <= i < r.len() implies text::is_space(#[trigger] r[i]) by {
            if i > 0 {
                assert(r[i] == a[i - 1]);
            }
        }
        r
    } else {
        assert(s =~= Seq::<char>::empty() + s);
        Seq::empty()
    }
}

proof fn lemma_end_is(s: Seq<char>) -> (b: Seq<char>)
    ensures
        blank(b),
        s == text::trim_end(s) + b,
        text::trim_end(s).len() > 0 ==> !text::is_space(text::trim_end(s).last()),
    decreases s.len(),
{
    if s.len() > 0 && text::is_space(s.last()) {
        let b = lemma_end_is(s.drop_last());
        let r = b.push(s.last());
        let t = text::trim_end(s);
        assert(s =~= s.drop_last().push(s.last()));
        assert(s.drop_last() == t + b);
        assert((t + b).push(s.last()) =~= t + r);
        assert forall|i: int| 0 <= i < r.len() implies text::is_space(#[trigger] r[i]) by {
            if i < b.len() {
                assert(r[i] == b[i]);
            }
        }
        r
    } else {
        assert(s =~= s + Seq::<char>::empty());
        Seq::empty()
    }
}

/// Lower case changes the capitals of ASCII alone, each to its small letter.
pub proof fn law_lower_case(s: Seq<char>, i: int)
    requires
        0 <= i < s.len(),
    ensures
        text::lowered(s).len() == s.len(),
        'A' <= s[i] <= 'Z' ==> text::lowered(s)[i] as u32 == s[i] as u32 + 32,
        !('A' <= s[i] <= 'Z') ==> text::lowered(s)[i] == s[i],
{
}

/// Splitting at a separator gives the pieces between the separators: a text without
/// one is one piece, and a separator between two texts keeps their pieces apart.
pub proof fn law_splitting(a: Seq<char>, sep: char, b: Seq<char>)
    ensures
        (forall|i: int| 0 <= i < a.len() ==> #[trigger] a[i] != sep) ==> text::split_on(a, sep)
            == seq![a],
        text::split_on(a + seq![sep] + b, sep) == text::split_on(a, sep) + text::split_on(b, sep),
{
    text::lemma_split_both(a, sep, b);
    assert(a + seq![sep] + b =~= a.push(sep) + b);
    if forall|i: int| 0 <= i < a.len() ==> #[trigger] a[i] != sep {
        assert(!text::mentions(a, sep));
        text::lemma_split_piece(a, sep, b);
    }
}

/// Joining puts the separator between the texts, and nowhere else.
pub proof fn law_joining(parts: Seq<Seq<char>>, last: Seq<char>, sep: Seq<char>)
    ensures
        text::joined(Seq::<Seq<char>>::empty(), sep) == Seq::<char>::empty(),
        text::joined(seq![last], sep) == last,
        parts.len() > 0 ==> text::joined(parts.push(last), sep) == text::joined(parts, sep) + sep
            + last,
{
    assert(parts.push(last).drop_last() =~= parts);
    assert(seq![last][0] == last);
}

/// The decimal text of a number reads back as the number, and a number from zero to
/// nine is one digit.
pub proof fn law_decimal_reads_back(n: int)
    ensures
        n >= 0 ==> text::digits_value(text::decimal(n)) == n,
        n < 0 ==> text::decimal(n)[0] == '-' && text::digits_value(text::decimal(n).skip(1)) == -n,
        0 <= n <= 9 ==> text::decimal(n) == seq![(48 + n) as u8 as char],
        n >= 10 ==> text::decimal(n).drop_last() == text::decimal(n / 10),
{
    if n >= 0 {
        text::lemma_decimal_nat_value(n as nat);
    } else {
        text::lemma_decimal_nat_value((-n) as nat);
        assert(text::decimal(n).skip(1) =~= text::decimal_nat((-n) as nat));
    }
    if n >= 10 {
        assert(text::decimal(n).drop_last() =~= text::decimal(n / 10));
    }
}

proof fn lemma_digits(n: nat)
    ensures
        text::all_digits(text::decimal_nat(n)),
    decreases n,
{
    if n >= 10 {
        lemma_digits(n / 10);
        let d = text::decimal_nat(n);
        assert forall|i: int| 0 <= i < d.len() implies text::is_digit(#[trigger] d[i]) by {
            if i < d.len() - 1 {
                assert(d[i] == text::decimal_nat(n / 10)[i]);
            }
        }
    }
}

/// What a number is written as is read as that number, as far as it fits.
pub proof fn law_written_number_is_read(n: int)
    ensures
        0 <= n <= u64::MAX ==> text::number_of(text::decimal(n)) == Some(n as u64),
        i64::MIN <= n <= i64::MAX ==> text::integer_of(text::decimal(n)) == Some(n as i64),
{
    if n >= 0 {
        lemma_digits(n as nat);
        text::lemma_decimal_nat_value(n as nat);
        let d = text::decimal(n);
        assert(text::is_digit(d[0]));
        assert(text::unsigned(d) == d);
        assert(text::magnitude(d) == d);
    } else {
        lemma_digits((-n) as nat);
        text::lemma_decimal_nat_value((-n) as nat);
        assert(text::magnitude(text::decimal(n)) =~= text::decimal_nat((-n) as nat));
    }
}

/// The order of texts is that of their first difference, and a text stands before
/// what it is the front of.
pub proof fn law_order_of_texts(front: Seq<char>, a: Seq<char>, b: Seq<char>)
    ensures
        text::lex_le(front, front + b),
        b.len() > 0 ==> !text::lex_le(front + b, front),
        a.len() > 0 && b.len() > 0 && a[0] < b[0] ==> text::lex_le(front + a, front + b)
            && !text::lex_le(front + b, front + a),
    decreases front.len(),
{
    if front.len() == 0 {
        assert(front + a =~= a);
        assert(front + b =~= b);
    } else {
        let less = front.drop_first();
        law_order_of_texts(less, a, b);
        assert((front + a).drop_first() =~= less + a);
        assert((front + b).drop_first() =~= less + b);
    }
}

/// A text begins with a front and ends with a tail, whatever else it holds.
pub proof fn law_fronts_and_tails(a: Seq<char>, b: Seq<char>)
    ensures
        text::begins_with(a + b, a),
        text::finishes_with(a + b, b),
        text::begins_with(a, b) ==> a == b + a.skip(b.len() as int),
        text::finishes_with(a, b) ==> a == a.take(a.len() - b.len()) + b,
{
    assert((a + b).take(a.len() as int) =~= a);
    assert((a + b).skip(a.len() as int) =~= b);
    if text::begins_with(a, b) {
        assert(a =~= a.take(b.len() as int) + a.skip(b.len() as int));
    }
    if text::finishes_with(a, b) {
        assert(a =~= a.take(a.len() - b.len()) + a.skip(a.len() - b.len()));
    }
}

/// Replacing a character leaves all others, and leaves none of it.
pub proof fn law_replacing_a_character(s: Seq<char>, from: char, to: char, i: int)
    requires
        0 <= i < s.len(),
    ensures
        text::swapped(s, from, to).len() == s.len(),
        s[i] == from ==> text::swapped(s, from, to)[i] == to,
        s[i] != from ==> text::swapped(s, from, to)[i] == s[i],
{
}

/// Capitals are made of small letters, place by place, and of nothing else.
pub proof fn law_upper_case(s: Seq<char>, i: int)
    requires
        0 <= i < s.len(),
    ensures
        text::uppered(s).len() == s.len(),
        'a' <= s[i] <= 'z' ==> text::uppered(s)[i] as u32 == s[i] as u32 - 32,
        !('a' <= s[i] <= 'z') ==> text::uppered(s)[i] == s[i],
{
}

/// A text that holds anything but digits behind a sign is no number, and neither is a
/// sign alone or nothing.
pub proof fn law_other_texts_are_no_numbers(s: Seq<char>, i: int)
    ensures
        0 <= i < s.len() && !('0' <= s[i] <= '9') && !(i == 0 && s[i] == '+') ==> text::number_of(
            s,
        ) is None,
        text::number_of(Seq::empty()) is None,
        text::number_of(seq!['+']) is None,
        text::number_of(seq!['+'] + s) is Some ==> text::number_of(seq!['+'] + s)
            == text::number_of(s),
{
    if 0 <= i < s.len() && !('0' <= s[i] <= '9') && !(i == 0 && s[i] == '+') {
        let u = text::unsigned(s);
        let k = if s[0] == '+' {
            i - 1
        } else {
            i
        };
        assert(u[k] == s[i]);
        assert(!text::is_digit(u[k]));
    }
    assert(seq!['+'].drop_first().len() == 0);
    let t = seq!['+'] + s;
    assert(t.drop_first() =~= s);
    if text::number_of(t) is Some {
        assert(text::is_digit(s[0]));
    }
}

/// A digit behind a number makes it ten times as much and the digit, as long as that
/// fits.
pub proof fn law_digits_add_up(s: Seq<char>, c: char)
    requires
        '0' <= c <= '9',
    ensures
        text::number_of(seq![c]) == Some((c as int - '0' as int) as u64),
        text::number_of(s) matches Some(n) ==> {
            let more = 10 * n + (c as int - '0' as int);
            text::number_of(s.push(c)) == if more <= u64::MAX {
                Some(more as u64)
            } else {
                None
            }
        },
{
    let one = seq![c];
    assert(one.drop_last() =~= Seq::<char>::empty());
    assert(text::unsigned(one) == one);
    assert(text::is_digit(one[0]));
    assert(text::digits_value(Seq::<char>::empty()) == 0);
    if text::number_of(s) is Some {
        let u = text::unsigned(s);
        let t = s.push(c);
        assert(text::unsigned(t) =~= u.push(c));
        assert(u.push(c).drop_last() =~= u);
        assert forall|i: int| 0 <= i < u.push(c).len() implies text::is_digit(
            #[trigger] u.push(c)[i],
        ) by {
            if i < u.len() {
                assert(u.push(c)[i] == u[i]);
            }
        }
    }
}

/// A text that holds anything but digits behind a minus sign is no whole number.
pub proof fn law_other_texts_are_no_integers(s: Seq<char>, i: int)
    ensures
        0 <= i < s.len() && !('0' <= s[i] <= '9') && !(i == 0 && s[i] == '-') ==> text::integer_of(
            s,
        ) is None,
        text::integer_of(Seq::empty()) is None,
        text::integer_of(seq!['-']) is None,
{
    if 0 <= i < s.len() && !('0' <= s[i] <= '9') && !(i == 0 && s[i] == '-') {
        let m = text::magnitude(s);
        let k = if s[0] == '-' {
            i - 1
        } else {
            i
        };
        assert(m[k] == s[i]);
        assert(!text::is_digit(m[k]));
    }
    assert(seq!['-'].drop_first().len() == 0);
}

} // verus!
