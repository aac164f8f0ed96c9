//! Reading and writing the small pieces of text that the other modules exchange.
use vstd::prelude::*;
use vstd::string::*;

verus! {

/// Which characters a trim takes off.
#[derive(Clone, Copy, PartialEq, Eq, Structural, Debug)]
pub enum Trim {
    /// The path separator.
    Slash,
    /// The characters of Unicode's `White_Space` property.
    WhiteSpace,
}

/// Unicode's `White_Space` property.
pub open spec fn is_white_space(c: char) -> bool {
    let code = c as int;
    ||| 0x9 <= code <= 0xd
    ||| code == 0x20
    ||| code == 0x85
    ||| code == 0xa0
    ||| code == 0x1680
    ||| 0x2000 <= code <= 0x200a
    ||| code == 0x2028
    ||| code == 0x2029
    ||| code == 0x202f
    ||| code == 0x205f
    ||| code == 0x3000
}

impl Trim {
    /// Whether the trim takes off `c`.
    pub open spec fn takes(self, c: char) -> bool {
        match self {
            Trim::Slash => c == '/',
            Trim::WhiteSpace => is_white_space(c),
        }
    }

    fn takes_char(self, c: char) -> (taken: bool)
        ensures
            taken == self.takes(c),
    {
        match self {
            Trim::Slash => c == '/',
            Trim::WhiteSpace => {
                let code: u32 = c as u32;
                (0x9 <= code && code <= 0xd) || code == 0x20 || code == 0x85 || code == 0xa0 || code
                    == 0x1680 || (0x2000 <= code && code <= 0x200a) || code == 0x2028 || code
                    == 0x2029 || code == 0x202f || code == 0x205f || code == 0x3000
            },
        }
    }
}

/// `s` without the taken characters at its start.
pub open spec fn trim_start(s: Seq<char>, trim: Trim) -> Seq<char>
    decreases s.len(),
{
    if s.len() > 0 && trim.takes(s.first()) {
        trim_start(s.drop_first(), trim)
    } else {
        s
    }
}

/// `s` without the taken characters at its end.
pub open spec fn trim_end(s: Seq<char>, trim: Trim) -> Seq<char>
    decreases s.len(),
{
    if s.len() > 0 && trim.takes(s.last()) {
        trim_end(s.drop_last(), trim)
    } else {
        s
    }
}

/// `s` without the taken characters at either end.
pub open spec fn trimmed(s: Seq<char>, trim: Trim) -> Seq<char> {
    trim_end(trim_start(s, trim), trim)
}

/// What stands before the first `c` and what stands behind it, if there is one.
pub open spec fn split_once(s: Seq<char>, c: char) -> Option<(Seq<char>, Seq<char>)> {
    match s.index_of_first(c) {
        Some(i) => Some((s.take(i), s.skip(i + 1))),
        None => None,
    }
}

/// What stands before the first `c`: all of `s`, if there is none.
pub open spec fn before(s: Seq<char>, c: char) -> Seq<char> {
    match split_once(s, c) {
        Some((head, _)) => head,
        None => s,
    }
}

/// The decimal digit `d`.
pub open spec fn digit(d: int) -> char {
    ('0' as int + d) as char
}

/// The lowercase hexadecimal digit `d`.
pub open spec fn hex_digit(d: int) -> char {
    if d < 10 {
        digit(d)
    } else {
        ('a' as int + (d - 10)) as char
    }
}

/// `n` in decimal, without leading zeros.
pub open spec fn decimal(n: nat) -> Seq<char>
    decreases n,
{
    if n < 10 {
        seq![digit(n as int)]
    } else {
        decimal(n / 10).push(digit((n % 10) as int))
    }
}

/// Whether `s` is made of decimal digits alone.
pub open spec fn all_digits(s: Seq<char>) -> bool {
    forall|i: int| 0 <= i < s.len() ==> '0' <= #[trigger] s[i] <= '9'
}

/// The number that the digits of `s` write.
pub open spec fn digits_value(s: Seq<char>) -> nat
    decreases s.len(),
{
    if s.len() == 0 {
        0
    } else {
        digits_value(s.drop_last()) * 10 + (s.last() as int - '0' as int) as nat
    }
}

/// The number that `s` writes: decimal digits, at least one, with or without a `+` in
/// front, and no more than `max`.
pub open spec fn parse_unsigned(s: Seq<char>, max: nat) -> Option<nat> {
    let digits = if s.len() > 0 && s.first() == '+' {
        s.drop_first()
    } else {
        s
    };
    if digits.len() > 0 && all_digits(digits) && digits_value(digits) <= max {
        Some(digits_value(digits))
    } else {
        None
    }
}

/// The characters of `s`.
pub(crate) fn chars_of(s: &str) -> (chars: Vec<char>)
    ensures
        chars@ == s@,
{
    let mut chars: Vec<char> = Vec::new();
    for c in it: s.chars()
        invariant
            chars@ == it.seq().take(it.index()),
            it.seq() == s@,
    {
        chars.push(c);
    }
    chars
}

/// The bounds of what is left of `chars[from..to]` after a trim.
pub(crate) fn trim_range(chars: &Vec<char>, from: usize, to: usize, trim: Trim) -> (range: (
    usize,
    usize,
))
    requires
        from <= to <= chars@.len(),
    ensures
        from <= range.0 <= range.1 <= to,
        chars@.subrange(range.0 as int, range.1 as int) == trimmed(
            chars@.subrange(from as int, to as int),
            trim,
        ),
{
    let ghost whole = chars@.subrange(from as int, to as int);
    let mut start: usize = from;
    while start < to && trim.takes_char(chars[start])
        invariant
            from <= start <= to <= chars@.len(),
            trim_start(whole, trim) == trim_start(chars@.subrange(start as int, to as int), trim),
        decreases to - start,
    {
        proof {
            let rest = chars@.subrange(start as int, to as int);
            assert(rest.drop_first() =~= chars@.subrange(start + 1, to as int));
        }
        start = start + 1;
    }
    let ghost left = chars@.subrange(start as int, to as int);
    assert(trim_start(whole, trim) == left);
    let mut end: usize = to;
    while start < end && trim.takes_char(chars[end - 1])
        invariant
            from <= start <= end <= to <= chars@.len(),
            trim_end(left, trim) == trim_end(chars@.subrange(start as int, end as int), trim),
        decreases end - start,
    {
        proof {
            let rest = chars@.subrange(start as int, end as int);
            assert(rest.drop_last() =~= chars@.subrange(start as int, end - 1));
        }
        end = end - 1;
    }
    (start, end)
}

/// The position of the first `c` in `chars[from..to]`, or `to`.
pub(crate) fn find_char(chars: &Vec<char>, from: usize, to: usize, c: char) -> (at: usize)
    requires
        from <= to <= chars@.len(),
    ensures
        from <= at <= to,
        match chars@.subrange(from as int, to as int).index_of_first(c) {
            Some(i) => at < to && i == at - from,
            None => at == to,
        },
{
    let ghost part = chars@.subrange(from as int, to as int);
    let mut at: usize = from;
    while at < to && chars[at] != c
        invariant
            from <= at <= to <= chars@.len(),
            part == chars@.subrange(from as int, to as int),
            forall|i: int| 0 <= i < at - from ==> part[i] != c,
        decreases to - at,
    {
        at = at + 1;
    }
    proof {
        part.index_of_first_ensures(c);
        if at < to {
            assert(part[at - from] == c);
        }
    }
    at
}

proof fn lemma_value_grows(s: Seq<char>, i: int)
    requires
        0 <= i <= s.len(),
        all_digits(s),
    ensures
        digits_value(s.take(i)) <= digits_value(s),
    decreases s.len() - i,
{
    if i < s.len() {
        lemma_value_grows(s, i + 1);
        assert(s.take(i + 1).drop_last() =~= s.take(i));
    } else {
        assert(s.take(i) =~= s);
    }
}

/// Reads the number that `chars[from..to]` writes.
pub(crate) fn read_unsigned(chars: &Vec<char>, from: usize, to: usize, max: u64) -> (number: Option<
    u64,
>)
    requires
        from <= to <= chars@.len(),
    ensures
        match parse_unsigned(chars@.subrange(from as int, to as int), max as nat) {
            Some(n) => number == Some(n as u64),
            None => number is None,
        },
{
    let ghost whole = chars@.subrange(from as int, to as int);
    let start: usize = if from < to && chars[from] == '+' {
        from + 1
    } else {
        from
    };
    let ghost digits = chars@.subrange(start as int, to as int);
    assert(digits =~= (if whole.len() > 0 && whole.first() == '+' {
        whole.drop_first()
    } else {
        whole
    }));
    if start == to {
        return None;
    }
    let mut at: usize = start;
    let mut value: u64 = 0;
    assert(digits.take(0) =~= Seq::<char>::empty());
    while at < to
        invariant
            start <= at <= to <= chars@.len(),
            digits == chars@.subrange(start as int, to as int),
            all_digits(digits.take(at - start)),
            value == digits_value(digits.take(at - start)),
            value <= max,
            digits.len() > 0,
            parse_unsigned(whole, max as nat) == (if all_digits(digits) && digits_value(digits)
                <= max {
                Some(digits_value(digits))
            } else {
                None
            }),
            whole == chars@.subrange(from as int, to as int),
        decreases to - at,
    {
        let c = chars[at];
        assert(c == digits[at - start]);
        if c < '0' || '9' < c {
            assert(!all_digits(digits));
            return None;
        }
        let d: u64 = (c as u32 - '0' as u32) as u64;
        proof {
            assert(digits.take(at + 1 - start).drop_last() =~= digits.take(at - start));
            assert(digits.take(at + 1 - start).last() == c);
            assert(digits_value(digits.take(at + 1 - start)) == value * 10 + d);
            if all_digits(digits) {
                lemma_value_grows(digits, at + 1 - start);
            }
        }
        if d > max || value > (max - d) / 10 {
            assert(value * 10 + d > max);
            return None;
        }
        value = value * 10 + d;
        at = at + 1;
        assert(all_digits(digits.take(at - start))) by {
            let longer = digits.take(at - start);
            assert forall|i: int| 0 <= i < longer.len() implies '0' <= #[trigger] longer[i] <= '9' by {
                if i < at - 1 - start {
                    assert(digits.take(at - 1 - start)[i] == longer[i]);
                }
            }
        }
    }
    assert(digits.take(at - start) =~= digits);
    Some(value)
}

fn digit_text(d: u64) -> (text: &'static str)
    requires
        d < 10,
    ensures
        text@ == seq![digit(d as int)],
{
    proof {
        reveal_strlit("0");
        reveal_strlit("1");
        reveal_strlit("2");
        reveal_strlit("3");
        reveal_strlit("4");
        reveal_strlit("5");
        reveal_strlit("6");
        reveal_strlit("7");
        reveal_strlit("8");
        reveal_strlit("9");
    }
    if d == 0 {
        "0"
    } else if d == 1 {
        "1"
    } else if d == 2 {
        "2"
    } else if d == 3 {
        "3"
    } else if d == 4 {
        "4"
    } else if d == 5 {
        "5"
    } else if d == 6 {
        "6"
    } else if d == 7 {
        "7"
    } else if d == 8 {
        "8"
    } else {
        "9"
    }
}

/// Appends `n` in decimal.
pub(crate) fn append_decimal(out: &mut String, n: u64)
    ensures
        final(out)@ == old(out)@ + decimal(n as nat),
    decreases n,
{
    if n >= 10 {
        append_decimal(out, n / 10);
    }
    out.append(digit_text(n % 10));
    assert(out@ =~= old(out)@ + decimal(n as nat));
}

/// Appends the lowercase hexadecimal digit `d`.
pub(crate) fn append_hex_digit(out: &mut String, d: u8)
    requires
        d < 16,
    ensures
        final(out)@ == old(out)@.push(hex_digit(d as int)),
{
    proof {
        reveal_strlit("a");
        reveal_strlit("b");
        reveal_strlit("c");
        reveal_strlit("d");
        reveal_strlit("e");
        reveal_strlit("f");
    }
    if d < 10 {
        out.append(digit_text(d as u64));
    } else if d == 10 {
        out.append("a");
    } else if d == 11 {
        out.append("b");
    } else if d == 12 {
        out.append("c");
    } else if d == 13 {
        out.append("d");
    } else if d == 14 {
        out.append("e");
    } else {
        out.append("f");
    }
    assert(out@ =~= old(out)@.push(hex_digit(d as int)));
}

/// A number's decimal form is made of digits, at least one, and writes that number.
pub(crate) proof fn lemma_decimal_value(n: nat)
    ensures
        decimal(n).len() > 0,
        all_digits(decimal(n)),
        digits_value(decimal(n)) == n,
    decreases n,
{
    reveal_with_fuel(digits_value, 2);
    let s = decimal(n);
    if n < 10 {
        assert(s.drop_last() =~= Seq::<char>::empty());
    } else {
        lemma_decimal_value(n / 10);
        assert(s.drop_last() =~= decimal(n / 10));
        assert forall|i: int| 0 <= i < s.len() implies '0' <= #[trigger] s[i] <= '9' by {
            if i < s.len() - 1 {
                assert(decimal(n / 10)[i] == s[i]);
            }
        }
    }
}

/// Reading a number's decimal form gives the number back.
pub proof fn decimal_reads_back(n: nat, max: nat)
    requires
        n <= max,
    ensures
        parse_unsigned(decimal(n), max) == Some(n),
{
    lemma_decimal_value(n);
    assert('0' <= decimal(n)[0]);
}

/// The decimal form of a number is its base-ten numeral: its last digit is the remainder of
/// the number by ten, what stands before it is the decimal form of the quotient, and a
/// number below ten is one digit.
pub proof fn decimal_is_written_by_remainders(n: nat)
    ensures
        decimal(n).len() > 0,
        decimal(n).last() as int == '0' as int + n % 10,
        n < 10 ==> decimal(n).len() == 1,
        n >= 10 ==> decimal(n).drop_last() == decimal(n / 10),
{
    if n >= 10 {
        assert(decimal(n).drop_last() =~= decimal(n / 10));
    }
}

proof fn lemma_fold_is_value(s: Seq<char>, f: spec_fn(int, char) -> int)
    requires
        forall|value: int, c: char| #[trigger]
            f(value, c) == 10 * value + (c as int - '0' as int),
        forall|i: int| 0 <= i < s.len() ==> '0' <= #[trigger] s[i] <= '9',
    ensures
        s.fold_left(0int, f) == digits_value(s),
    decreases s.len(),
{
    if s.len() > 0 {
        let t = s.drop_last();
        assert forall|i: int| 0 <= i < t.len() implies '0' <= #[trigger] t[i] <= '9' by {
            assert(t[i] == s[i]);
        }
        lemma_fold_is_value(t, f);
        assert('0' <= s[s.len() - 1] <= '9');
    }
}

/// Reading the decimal form of a number digit by digit, where each digit adds its worth to
/// ten times what was read before it, gives the number. All of its characters are digits,
/// and none is a leading zero.
pub proof fn decimal_is_the_numeral(n: nat, read: spec_fn(int, char) -> int)
    requires
        forall|value: int, c: char| #[trigger]
            read(value, c) == 10 * value + (c as int - '0' as int),
    ensures
        decimal(n).len() > 0,
        forall|i: int| 0 <= i < decimal(n).len() ==> '0' <= #[trigger] decimal(n)[i] <= '9',
        decimal(n).len() > 1 ==> decimal(n)[0] != '0',
        decimal(n).fold_left(0int, read) == n,
    decreases n,
{
    lemma_decimal_value(n);
    lemma_fold_is_value(decimal(n), read);
    if n >= 10 {
        decimal_is_the_numeral(n / 10, read);
        assert(decimal(n)[0] == decimal(n / 10)[0]);
        if decimal(n / 10).len() == 1 {
            assert(n / 10 < 10) by {
                if n / 10 >= 10 {
                    decimal_is_written_by_remainders(n / 10);
                    decimal_is_written_by_remainders(n / 10 / 10);
                }
            }
            assert(decimal(n / 10)[0] == digit((n / 10) as int));
        }
    }
}

/// A text is read as a number exactly if it is made of decimal digits, at least one, with or
/// without a `+` in front, and what is read is what the digits write, one after the other,
/// up to the largest number that is allowed.
pub proof fn numerals_are_read(s: Seq<char>, max: nat, read: spec_fn(int, char) -> int)
    requires
        forall|value: int, c: char| #[trigger]
            read(value, c) == 10 * value + (c as int - '0' as int),
    ensures
        match parse_unsigned(s, max) {
            Some(n) => n <= max && exists|t: Seq<char>|
                {
                    &&& s == t || s == seq!['+'] + t
                    &&& t.len() > 0
                    &&& forall|i: int| 0 <= i < t.len() ==> '0' <= #[trigger] t[i] <= '9'
                    &&& #[trigger] t.fold_left(0int, read) == n
                },
            None => forall|t: Seq<char>|
                {
                    &&& s == t || s == seq!['+'] + t
                    &&& t.len() > 0
                    &&& forall|i: int| 0 <= i < t.len() ==> '0' <= #[trigger] t[i] <= '9'
                } ==> #[trigger] t.fold_left(0int, read) > max,
        },
{
    let digits = if s.len() > 0 && s.first() == '+' {
        s.drop_first()
    } else {
        s
    };
    if s.len() > 0 && s.first() == '+' {
        assert(s =~= seq!['+'] + digits);
    }
    if digits.len() > 0 && all_digits(digits) {
        lemma_fold_is_value(digits, read);
    }
    if parse_unsigned(s, max) is Some {
        assert(digits.fold_left(0int, read) == parse_unsigned(s, max)->0);
    } else {
        assert forall|t: Seq<char>|
            {
                &&& s == t || s == seq!['+'] + t
                &&& t.len() > 0
                &&& forall|i: int| 0 <= i < t.len() ==> '0' <= #[trigger] t[i] <= '9'
            } implies #[trigger] t.fold_left(0int, read) > max by {
            if s == t {
                assert('0' <= t[0] <= '9');
                assert(digits == t);
            } else {
                assert(s.drop_first() =~= t);
                assert(s.first() == '+');
            }
        }
    }
}

/// A trim takes off what it takes at both ends, however much that is, and nothing else.
pub proof fn trim_takes_both_ends(
    lead: Seq<char>,
    core: Seq<char>,
    tail: Seq<char>,
    trim: Trim,
)
    requires
        forall|i: int| 0 <= i < lead.len() ==> trim.takes(#[trigger] lead[i]),
        forall|i: int| 0 <= i < tail.len() ==> trim.takes(#[trigger] tail[i]),
        core.len() > 0 ==> !trim.takes(core.first()) && !trim.takes(core.last()),
    ensures
        trimmed(lead + core + tail, trim) == core,
    decreases lead.len() + tail.len(),
{
    let s = lead + core + tail;
    if lead.len() > 0 {
        assert(trim.takes(lead[0]));
        assert(s.drop_first() =~= lead.drop_first() + core + tail);
        let rest = lead.drop_first();
        assert forall|i: int| 0 <= i < rest.len() implies trim.takes(#[trigger] rest[i]) by {
            assert(rest[i] == lead[i + 1]);
        }
        trim_takes_both_ends(rest, core, tail, trim);
    } else if core.len() == 0 && tail.len() > 0 {
        assert(trim.takes(tail[0]));
        assert(s =~= tail);
        assert(s.drop_first() =~= lead + core + tail.drop_first());
        let rest = tail.drop_first();
        assert forall|i: int| 0 <= i < rest.len() implies trim.takes(#[trigger] rest[i]) by {
            assert(rest[i] == tail[i + 1]);
        }
        trim_takes_both_ends(lead, core, rest, trim);
    } else if core.len() == 0 {
        assert(s =~= core);
    } else {
        assert(s.first() == core.first());
        lemma_trim_end_takes(core, tail, trim);
        assert(s =~= core + tail);
    }
}

proof fn lemma_trim_end_takes(core: Seq<char>, tail: Seq<char>, trim: Trim)
    requires
        forall|i: int| 0 <= i < tail.len() ==> trim.takes(#[trigger] tail[i]),
        core.len() > 0,
        !trim.takes(core.last()),
    ensures
        trim_end(core + tail, trim) == core,
    decreases tail.len(),
{
    let s = core + tail;
    if tail.len() > 0 {
        assert(trim.takes(tail[tail.len() - 1]));
        assert(s.drop_last() =~= core + tail.drop_last());
        let rest = tail.drop_last();
        assert forall|i: int| 0 <= i < rest.len() implies trim.takes(#[trigger] rest[i]) by {
            assert(rest[i] == tail[i]);
        }
        lemma_trim_end_takes(core, rest, trim);
    } else {
        assert(s =~= core);
    }
}

/// A trim of slashes takes slashes and nothing else; one of white space takes the characters
/// that Unicode lists as such.
pub proof fn trims_take_what_they_are_named_for(c: char)
    ensures
        Trim::Slash.takes(c) <==> c == '/',
        Trim::WhiteSpace.takes(c) <==> seq![
            0x9int, 0xa, 0xb, 0xc, 0xd, 0x20, 0x85, 0xa0, 0x1680, 0x2000, 0x2001, 0x2002, 0x2003,
            0x2004, 0x2005, 0x2006, 0x2007, 0x2008, 0x2009, 0x200a, 0x2028, 0x2029, 0x202f, 0x205f,
            0x3000,
        ].contains(c as int),
{
    let listed = seq![
        0x9int, 0xa, 0xb, 0xc, 0xd, 0x20, 0x85, 0xa0, 0x1680, 0x2000, 0x2001, 0x2002, 0x2003,
        0x2004, 0x2005, 0x2006, 0x2007, 0x2008, 0x2009, 0x200a, 0x2028, 0x2029, 0x202f, 0x205f,
        0x3000,
    ];
    let code = c as int;
    let place = if 0x9 <= code <= 0xd {
        code - 0x9
    } else if code == 0x20 {
        5
    } else if code == 0x85 {
        6
    } else if code == 0xa0 {
        7
    } else if code == 0x1680 {
        8
    } else if 0x2000 <= code <= 0x200a {
        9 + (code - 0x2000)
    } else if code == 0x2028 {
        20
    } else if code == 0x2029 {
        21
    } else if code == 0x202f {
        22
    } else if code == 0x205f {
        23
    } else {
        24
    };
    if Trim::WhiteSpace.takes(c) {
        assert(listed[place] == code);
    }
}

/// A text is split at the first `c`, and not at all where there is none.
pub proof fn split_is_at_the_first(head: Seq<char>, c: char, tail: Seq<char>)
    requires
        !head.contains(c),
    ensures
        split_once(head + seq![c] + tail, c) == Some((head, tail)),
        before(head + seq![c] + tail, c) == head,
        split_once(head, c) is None,
        before(head, c) == head,
{
    let s = head + seq![c] + tail;
    s.index_of_first_ensures(c);
    head.index_of_first_ensures(c);
    assert(s[head.len() as int] == c);
    assert(s.contains(c));
    let i = s.index_of_first(c)->0;
    assert(i == head.len()) by {
        if i < head.len() {
            assert(head[i] == s[i]);
        }
    }
    assert(s.take(i) =~= head);
    assert(s.skip(i + 1) =~= tail);
}

} // verus!
