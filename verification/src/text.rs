//! Character-level reading of the short texts that the agent receives: CIDR
//! specifications, listen addresses, tokens and query strings.
use vstd::prelude::*;

verus! {

/// Whether `c` has the Unicode `White_Space` property (what `char::is_whitespace` tests).
pub open spec fn is_white(c: char) -> bool {
    let u: u32 = c as u32;
    ||| 0x9 <= u <= 0xd
    ||| u == 0x20
    ||| u == 0x85
    ||| u == 0xa0
    ||| u == 0x1680
    ||| 0x2000 <= u <= 0x200a
    ||| u == 0x2028
    ||| u == 0x2029
    ||| u == 0x202f
    ||| u == 0x205f
    ||| u == 0x3000
}

/// `s` without its leading white space.
pub open spec fn trim_start(s: Seq<char>) -> Seq<char>
    decreases s.len(),
{
    if s.len() > 0 && is_white(s[0]) {
        trim_start(s.drop_first())
    } else {
        s
    }
}

/// `s` without its trailing white space.
pub open spec fn trim_end(s: Seq<char>) -> Seq<char>
    decreases s.len(),
{
    if s.len() > 0 && is_white(s.last()) {
        trim_end(s.drop_last())
    } else {
        s
    }
}

/// `s` without white space at either end (what `str::trim` returns).
pub open spec fn trim(s: Seq<char>) -> Seq<char> {
    trim_end(trim_start(s))
}

/// The fields of `s` between occurrences of `sep`, in order (what `str::split` yields).
/// There is always at least one field, and a text with `n` separators has `n + 1` fields.
pub open spec fn split_on(s: Seq<char>, sep: char) -> Seq<Seq<char>>
    decreases s.len(),
{
    if s.len() == 0 {
        seq![Seq::<char>::empty()]
    } else {
        let rest = split_on(s.drop_last(), sep);
        if s.last() == sep {
            rest.push(Seq::<char>::empty())
        } else {
            rest.update(rest.len() - 1, rest.last().push(s.last()))
        }
    }
}

/// What `str::split_once` returns: the text before the first `sep` and the text after it.
pub open spec fn split_once(s: Seq<char>, sep: char) -> Option<(Seq<char>, Seq<char>)> {
    let fields = split_on(s, sep);
    if fields.len() > 1 {
        Some((fields[0], s.skip(fields[0].len() as int + 1)))
    } else {
        None
    }
}

/// Whether `c` is an ASCII decimal digit.
pub open spec fn is_digit(c: char) -> bool {
    '0' <= c && c <= '9'
}

/// The value of the decimal digit `c`.
pub open spec fn digit_value(c: char) -> nat {
    ((c as int) - ('0' as int)) as nat
}

/// Whether every character of `s` is a decimal digit.
pub open spec fn all_digits(s: Seq<char>) -> bool {
    forall|i: int| 0 <= i < s.len() ==> is_digit(#[trigger] s[i])
}

/// The number that the decimal digits `s` write.
pub open spec fn decimal_value(s: Seq<char>) -> nat
    decreases s.len(),
{
    if s.len() == 0 {
        0
    } else {
        decimal_value(s.drop_last()) * 10 + digit_value(s.last())
    }
}

/// What `FromStr` of an unsigned integer type whose values lie below `bound` gives for `s`:
/// an optional `+`, then at least one decimal digit, and a value below `bound`.
pub open spec fn parse_unsigned(s: Seq<char>, bound: nat) -> Option<nat> {
    let digits = if s.len() > 1 && s[0] == '+' { s.drop_first() } else { s };
    if digits.len() > 0 && all_digits(digits) && decimal_value(digits) < bound {
        Some(decimal_value(digits))
    } else {
        None
    }
}

/// A decimal number grows, or stays, as digits are appended to it.
pub proof fn lemma_decimal_prefix_le(s: Seq<char>, k: int)
    requires
        0 <= k <= s.len(),
    ensures
        decimal_value(s.take(k)) <= decimal_value(s),
    decreases s.len(),
{
    if k < s.len() {
        assert(s.drop_last().take(k) =~= s.take(k));
        lemma_decimal_prefix_le(s.drop_last(), k);
    } else {
        assert(s.take(k) =~= s);
    }
}

/// The characters of `s`, in order, in a vector that can be indexed.
pub fn chars_of(s: &str) -> (v: Vec<char>)
    ensures
        v@ == s@,
{
    let mut v: Vec<char> = Vec::new();
    for c in it: s.chars()
        invariant
            v@ == it.seq().take(it.index()),
    {
        v.push(c);
    }
    v
}

/// Whether `c` is white space (`char::is_whitespace`).
pub fn is_white_char(c: char) -> (b: bool)
    ensures
        b == is_white(c),
{
    let u: u32 = c as u32;
    (0x9 <= u && u <= 0xd) || u == 0x20 || u == 0x85 || u == 0xa0 || u == 0x1680 || (0x2000 <= u
        && u <= 0x200a) || u == 0x2028 || u == 0x2029 || u == 0x202f || u == 0x205f || u == 0x3000
}

/// The bounds, inside `lo..hi`, of `s[lo..hi]` once trimmed of white space at both ends.
pub fn trim_range(s: &Vec<char>, lo: usize, hi: usize) -> (r: (usize, usize))
    requires
        lo <= hi <= s.len(),
    ensures
        lo <= r.0 <= r.1 <= hi,
        s@.subrange(r.0 as int, r.1 as int) == trim(s@.subrange(lo as int, hi as int)),
{
    let mut a: usize = lo;
    while a < hi && is_white_char(s[a])
        invariant
            lo <= a <= hi <= s.len(),
            trim_start(s@.subrange(lo as int, hi as int)) == trim_start(
                s@.subrange(a as int, hi as int),
            ),
        decreases hi - a,
    {
        assert(s@.subrange(a as int, hi as int).drop_first() =~= s@.subrange(
            a + 1,
            hi as int,
        ));
        a = a + 1;
    }
    proof {
        if a < hi {
            assert(s@.subrange(a as int, hi as int)[0] == s@[a as int]);
        }
    }
    let mut b: usize = hi;
    while b > a && is_white_char(s[b - 1])
        invariant
            lo <= a <= b <= hi <= s.len(),
            trim(s@.subrange(lo as int, hi as int)) == trim_end(s@.subrange(a as int, b as int)),
        decreases b - a,
    {
        assert(s@.subrange(a as int, b as int).drop_last() =~= s@.subrange(a as int, b - 1));
        b = b - 1;
    }
    proof {
        if b > a {
            assert(s@.subrange(a as int, b as int).last() == s@[b - 1]);
        }
    }
    (a, b)
}

/// Extending a text by one character either opens a new, empty field (the character is the
/// separator) or grows the last field by that character.
pub proof fn lemma_split_on_extend(s: Seq<char>, lo: int, i: int, sep: char)
    requires
        0 <= lo <= i < s.len(),
    ensures
        split_on(s.subrange(lo, i + 1), sep) == (if s[i] == sep {
            split_on(s.subrange(lo, i), sep).push(Seq::<char>::empty())
        } else {
            split_on(s.subrange(lo, i), sep).update(
                split_on(s.subrange(lo, i), sep).len() - 1,
                split_on(s.subrange(lo, i), sep).last().push(s[i]),
            )
        }),
{
    let sub1 = s.subrange(lo, i + 1);
    assert(sub1.drop_last() =~= s.subrange(lo, i));
    assert(sub1.last() == s[i]);
}

/// The bounds of the fields of `s[lo..hi]` between occurrences of `sep`, as `split_on` gives them.
pub fn split_ranges(s: &Vec<char>, lo: usize, hi: usize, sep: char) -> (r: Vec<(usize, usize)>)
    requires
        lo <= hi <= s.len(),
    ensures
        r.len() == split_on(s@.subrange(lo as int, hi as int), sep).len(),
        r.len() >= 1,
        r[0].0 == lo,
        r[r.len() - 1].1 == hi,
        forall|j: int|
            0 <= j < r.len() ==> lo <= (#[trigger] r[j]).0 <= r[j].1 <= hi && s@.subrange(
                r[j].0 as int,
                r[j].1 as int,
            ) == split_on(s@.subrange(lo as int, hi as int), sep)[j],
        forall|j: int|
            0 <= j < r.len() - 1 ==> s@[(#[trigger] r[j]).1 as int] == sep && r[j + 1].0 == r[j].1
                + 1,
{
    let mut res: Vec<(usize, usize)> = Vec::new();
    let mut start: usize = lo;
    let mut i: usize = lo;
    assert(s@.subrange(lo as int, lo as int) =~= Seq::<char>::empty());
    while i < hi
        invariant
            lo <= start <= i <= hi <= s.len(),
            res.len() + 1 == split_on(s@.subrange(lo as int, i as int), sep).len(),
            res.len() == 0 ==> start == lo,
            res.len() > 0 ==> res[0].0 == lo,
            forall|j: int|
                0 <= j < res.len() ==> lo <= (#[trigger] res[j]).0 <= res[j].1 < start
                    && s@.subrange(res[j].0 as int, res[j].1 as int) == split_on(
                    s@.subrange(lo as int, i as int),
                    sep,
                )[j],
            forall|j: int|
                0 <= j < res.len() ==> s@[(#[trigger] res[j]).1 as int] == sep && (if j + 1
                    < res.len() {
                    res[j + 1].0 == res[j].1 + 1
                } else {
                    start == res[j].1 + 1
                }),
            s@.subrange(start as int, i as int) == split_on(
                s@.subrange(lo as int, i as int),
                sep,
            ).last(),
        decreases hi - i,
    {
        proof {
            lemma_split_on_extend(s@, lo as int, i as int, sep);
        }
        if s[i] == sep {
            res.push((start, i));
            start = i + 1;
            assert(s@.subrange(start as int, i + 1) =~= Seq::<char>::empty());
        } else {
            assert(s@.subrange(start as int, i + 1) =~= s@.subrange(start as int, i as int).push(
                s@[i as int],
            ));
        }
        i = i + 1;
    }
    res.push((start, hi));
    res
}

/// Whether `s[lo..hi]` holds exactly the characters of `t`.
pub fn range_eq(s: &Vec<char>, lo: usize, hi: usize, t: &Vec<char>) -> (b: bool)
    requires
        lo <= hi <= s.len(),
    ensures
        b == (s@.subrange(lo as int, hi as int) == t@),
{
    if hi - lo != t.len() {
        return false;
    }
    let mut i: usize = 0;
    while i < t.len()
        invariant
            lo <= hi <= s.len(),
            hi - lo == t.len(),
            0 <= i <= t.len(),
            forall|j: int| 0 <= j < i ==> s@[lo + j] == t@[j],
        decreases t.len() - i,
    {
        if s[lo + i] != t[i] {
            assert(s@.subrange(lo as int, hi as int)[i as int] != t@[i as int]);
            return false;
        }
        i = i + 1;
    }
    assert(s@.subrange(lo as int, hi as int) =~= t@);
    true
}

/// The value of the decimal digits `s[lo..hi]` when every character there is a digit and
/// the value is at most `max`; `None` otherwise.
pub fn digits_value(s: &Vec<char>, lo: usize, hi: usize, max: u64) -> (r: Option<u64>)
    requires
        lo <= hi <= s.len(),
        max <= u32::MAX,
    ensures
        r == (if all_digits(s@.subrange(lo as int, hi as int)) && decimal_value(
            s@.subrange(lo as int, hi as int),
        ) <= max {
            Some(decimal_value(s@.subrange(lo as int, hi as int)) as u64)
        } else {
            None::<u64>
        }),
{
    let ghost t = s@.subrange(lo as int, hi as int);
    let mut acc: u64 = 0;
    let mut i: usize = lo;
    assert(t.take(0) =~= Seq::<char>::empty());
    while i < hi
        invariant
            lo <= i <= hi <= s.len(),
            max <= u32::MAX,
            t == s@.subrange(lo as int, hi as int),
            all_digits(t.take(i - lo)),
            acc == decimal_value(t.take(i - lo)),
            acc <= max,
        decreases hi - i,
    {
        let c = s[i];
        assert(t[i - lo] == c);
        if !('0' <= c && c <= '9') {
            assert(!is_digit(t[i - lo]));
            return None;
        }
        let d: u64 = (c as u32 - '0' as u32) as u64;
        assert(t.take(i + 1 - lo).drop_last() =~= t.take(i - lo));
        assert(t.take(i + 1 - lo).last() == c);
        if d > max || acc > (max - d) / 10 {
            proof {
                if d <= max {
                    assert(acc * 10 + d > max) by (nonlinear_arith)
                        requires
                            acc > (max - d) / 10,
                            d <= max,
                    ;
                }
                lemma_decimal_prefix_le(t, i + 1 - lo);
            }
            return None;
        }
        assert(acc * 10 + d <= max) by (nonlinear_arith)
            requires
                acc <= (max - d) / 10,
                d <= max,
        ;
        acc = acc * 10 + d;
        i = i + 1;
    }
    assert(t.take(hi - lo) =~= t);
    Some(acc)
}


/// Appends `c` to `s`.
/// Calls `String::push`; claims that the text of `s` grows by exactly `c` at its end.
#[verifier::external_body]
pub(crate) fn push_char(s: &mut String, c: char)
    ensures
        final(s)@ == old(s)@.push(c),
{
    s.push(c);
}

/// A new string holding the characters `s[lo..hi]`.
pub fn string_of_range(s: &Vec<char>, lo: usize, hi: usize) -> (r: String)
    requires
        lo <= hi <= s.len(),
    ensures
        r@ == s@.subrange(lo as int, hi as int),
{
    let mut r = String::new();
    let mut i: usize = lo;
    while i < hi
        invariant
            lo <= i <= hi <= s.len(),
            r@ == s@.subrange(lo as int, i as int),
        decreases hi - i,
    {
        push_char(&mut r, s[i]);
        assert(s@.subrange(lo as int, i + 1) =~= s@.subrange(lo as int, i as int).push(s@[i as int]));
        i = i + 1;
    }
    r
}

/// The value that `FromStr` for an unsigned integer type with largest value `max` reads in
/// `s[lo..hi]`, when it reads one.
pub fn parse_unsigned_range(s: &Vec<char>, lo: usize, hi: usize, max: u64) -> (r: Option<u64>)
    requires
        lo <= hi <= s.len(),
        max <= u32::MAX,
    ensures
        r == (match parse_unsigned(s@.subrange(lo as int, hi as int), (max + 1) as nat) {
            Some(v) => Some(v as u64),
            None => None::<u64>,
        }),
{
    let ghost t = s@.subrange(lo as int, hi as int);
    let start: usize = if hi - lo > 1 && s[lo] == '+' {
        lo + 1
    } else {
        lo
    };
    proof {
        if hi - lo > 1 && s@[lo as int] == '+' {
            assert(t[0] == '+');
            assert(t.drop_first() =~= s@.subrange(start as int, hi as int));
        } else {
            if t.len() > 1 {
                assert(t[0] == s@[lo as int]);
            }
            assert(t =~= s@.subrange(start as int, hi as int));
        }
    }
    if start == hi {
        return None;
    }
    digits_value(s, start, hi, max)
}


/// Whether `a` and `b` hold the same characters.
pub fn same_text(a: &str, b: &str) -> (r: bool)
    ensures
        r == (a@ == b@),
{
    let ca = chars_of(a);
    let cb = chars_of(b);
    let r = range_eq(&ca, 0, ca.len(), &cb);
    assert(ca@.subrange(0, ca.len() as int) =~= a@);
    r
}


/// Appends the characters of `t` to `s`.
pub fn push_text(s: &mut String, t: &str)
    ensures
        final(s)@ == old(s)@ + t@,
{
    let cs = chars_of(t);
    let mut i: usize = 0;
    while i < cs.len()
        invariant
            0 <= i <= cs.len(),
            cs@ == t@,
            s@ == old(s)@ + t@.take(i as int),
        decreases cs.len() - i,
    {
        push_char(s, cs[i]);
        assert(t@.take(i + 1) =~= t@.take(i as int).push(t@[i as int]));
        i = i + 1;
    }
    assert(t@.take(i as int) =~= t@);
}

/// The character of the decimal digit `d` (below 10).
pub open spec fn digit_char(d: nat) -> char {
    ((d + 48) as u32) as char
}

/// The decimal text of `n`, without leading zeros.
pub open spec fn decimal_text(n: nat) -> Seq<char>
    decreases n,
{
    if n < 10 {
        seq![digit_char(n)]
    } else {
        decimal_text(n / 10).push(digit_char(n % 10))
    }
}

/// Appends the decimal text of `n` to `s`.
pub fn push_decimal(s: &mut String, n: u64)
    ensures
        final(s)@ == old(s)@ + decimal_text(n as nat),
    decreases n,
{
    if n >= 10 {
        push_decimal(s, n / 10);
    }
    let d: u8 = (n % 10) as u8;
    let c: char = (48u8 + d) as char;
    assert(c == digit_char((n % 10) as nat));
    push_char(s, c);
    proof {
        if n >= 10 {
            assert(decimal_text(n as nat) == decimal_text((n / 10) as nat).push(c));
        } else {
            assert(decimal_text(n as nat) == seq![c]);
        }
    }
    assert(s@ =~= old(s)@ + decimal_text(n as nat));
}


/// A text always has at least one field.
pub proof fn lemma_split_on_nonempty(s: Seq<char>, sep: char)
    ensures
        split_on(s, sep).len() >= 1,
    decreases s.len(),
{
    if s.len() > 0 {
        lemma_split_on_nonempty(s.drop_last(), sep);
    }
}

/// A text without a separator is its only field.
pub proof fn lemma_split_on_single(s: Seq<char>, sep: char)
    requires
        split_on(s, sep).len() == 1,
    ensures
        split_on(s, sep)[0] == s,
    decreases s.len(),
{
    if s.len() > 0 {
        lemma_split_on_nonempty(s.drop_last(), sep);
        if s.last() != sep {
            lemma_split_on_single(s.drop_last(), sep);
            assert(s.drop_last().push(s.last()) =~= s);
        }
    }
}

} // verus!

verus! {

/// The decimal text of `n`: at least one digit, no leading zero, as many digits as `n` needs,
/// and it reads back as `n`.
pub proof fn lemma_decimal_text(n: nat)
    ensures
        decimal_text(n).len() >= 1,
        all_digits(decimal_text(n)),
        decimal_value(decimal_text(n)) == n,
        decimal_text(n).len() > 1 ==> decimal_text(n)[0] != '0',
        n < 10 ==> decimal_text(n).len() == 1,
        n >= 10 ==> decimal_text(n).len() >= 2,
        n < 100 ==> decimal_text(n).len() <= 2,
        n < 1000 ==> decimal_text(n).len() <= 3,
    decreases n,
{
    if n < 10 {
        let c = digit_char(n);
        assert((c as int) == n + 48);
        assert(decimal_text(n).drop_last() =~= Seq::<char>::empty());
        assert(decimal_text(n).last() == c);
        assert(decimal_value(decimal_text(n)) == decimal_value(Seq::<char>::empty()) * 10
            + digit_value(c));
    } else {
        lemma_decimal_text(n / 10);
        let t = decimal_text(n / 10);
        let c = digit_char(n % 10);
        assert((c as int) == n % 10 + 48);
        assert(decimal_text(n).drop_last() =~= t);
        assert(decimal_text(n).last() == c);
        assert(decimal_value(decimal_text(n)) == decimal_value(t) * 10 + digit_value(c));
        assert((n / 10) * 10 + n % 10 == n);
        assert(decimal_text(n)[0] == t[0]);
        if n / 10 < 10 {
            assert(t[0] == digit_char(n / 10));
            assert((digit_char(n / 10) as int) == n / 10 + 48);
        }
    }
}

/// A text without the separator is its only field.
pub proof fn lemma_split_on_no_sep(s: Seq<char>, sep: char)
    requires
        forall|i: int| 0 <= i < s.len() ==> s[i] != sep,
    ensures
        split_on(s, sep) == seq![s],
    decreases s.len(),
{
    if s.len() > 0 {
        lemma_split_on_no_sep(s.drop_last(), sep);
        assert(s[s.len() - 1] != sep);
        assert(s.drop_last().push(s.last()) =~= s);
        assert(split_on(s, sep) =~= seq![s]);
    } else {
        assert(s =~= Seq::<char>::empty());
        assert(split_on(s, sep) =~= seq![s]);
    }
}

/// Joining two texts with the separator joins their fields.
pub proof fn lemma_split_on_join(a: Seq<char>, b: Seq<char>, sep: char)
    ensures
        split_on(a + seq![sep] + b, sep) == split_on(a, sep) + split_on(b, sep),
    decreases b.len(),
{
    let j = a + seq![sep] + b;
    if b.len() == 0 {
        assert(j.drop_last() =~= a);
        assert(j.last() == sep);
        assert(split_on(j, sep) =~= split_on(a, sep) + split_on(b, sep));
    } else {
        lemma_split_on_join(a, b.drop_last(), sep);
        lemma_split_on_nonempty(b.drop_last(), sep);
        assert(j.drop_last() =~= a + seq![sep] + b.drop_last());
        assert(j.last() == b.last());
        assert(split_on(j, sep) =~= split_on(a, sep) + split_on(b, sep));
    }
}

/// A text whose ends are no white space is its own trim.
pub proof fn lemma_trim_no_white_ends(s: Seq<char>)
    requires
        s.len() > 0,
        !is_white(s[0]),
        !is_white(s.last()),
    ensures
        trim(s) == s,
{
}

} // verus!
