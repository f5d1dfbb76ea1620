//! Reading and writing numbers as text.

use vstd::prelude::*;

verus! {

/// The characters of `s`.
pub fn chars_of(s: &str) -> (r: Vec<char>)
    ensures
        r@ == s@,
{
    broadcast use vstd::string::axiom_spec_iter;

    let mut r: Vec<char> = Vec::new();
    for c in it: s.chars()
        invariant
            it.seq() == s@,
            r@ == it.seq().take(it.index() as int),
    {
        r.push(c);
        proof {
            assert(r@ =~= it.seq().take(it.index() + 1));
        }
    }
    proof {
        assert(s@.take(s@.len() as int) =~= s@);
    }
    r
}

/// Appends the character to the string, by `String::push`.
#[verifier::external_body]
fn push_char(s: &mut String, c: char)
    ensures
        final(s)@ == old(s)@.push(c),
{
    s.push(c)
}

/// The string of the given characters.
pub fn string_of(chars: &Vec<char>) -> (r: String)
    ensures
        r@ == chars@,
{
    let mut r = String::new();
    let mut k: usize = 0;
    while k < chars.len()
        invariant
            k <= chars.len(),
            r@ == chars@.take(k as int),
        decreases chars.len() - k,
    {
        push_char(&mut r, chars[k]);
        proof {
            assert(r@ =~= chars@.take(k as int + 1));
        }
        k = k + 1;
    }
    proof {
        assert(chars@.take(chars@.len() as int) =~= chars@);
    }
    r
}

/// Whether `c` is one of the digits 0 to 9.
pub open spec fn is_digit(c: char) -> bool {
    '0' <= c <= '9'
}

/// The number that the digit `c` stands for.
pub open spec fn digit_value(c: char) -> nat {
    (c as nat - '0' as nat) as nat
}

/// Every character of `s` is a digit, and there is at least one.
pub open spec fn numeral(s: Seq<char>) -> bool {
    &&& s.len() > 0
    &&& forall|k: int| 0 <= k < s.len() ==> is_digit(#[trigger] s[k])
}

/// The number that the digits of `s` spell in base ten.
pub open spec fn value(s: Seq<char>) -> nat
    decreases s.len(),
{
    if s.len() == 0 {
        0
    } else {
        value(s.drop_last()) * 10 + digit_value(s.last())
    }
}

/// `s` without a plus sign at its start.
pub open spec fn unsigned(s: Seq<char>) -> Seq<char> {
    if s.len() > 0 && s[0] == '+' {
        s.skip(1)
    } else {
        s
    }
}

/// The number that `s` spells: digits, with or without a plus sign before
/// them, that spell a number that a `usize` can hold.
pub open spec fn parsed(s: Seq<char>) -> Option<usize> {
    if numeral(unsigned(s)) && value(unsigned(s)) <= usize::MAX {
        Some(value(unsigned(s)) as usize)
    } else {
        None
    }
}

/// More digits spell no lower number.
pub proof fn lemma_value_grows(s: Seq<char>, k: int)
    requires
        0 <= k <= s.len(),
    ensures
        value(s.take(k)) <= value(s),
    decreases s.len() - k,
{
    if k < s.len() {
        lemma_value_grows(s, k + 1);
        assert(s.take(k + 1).drop_last() =~= s.take(k));
    } else {
        assert(s.take(k) =~= s);
    }
}

/// The number that the characters of `v` from `from` up to `to` spell, if
/// they spell one.
pub fn parse_usize(v: &Vec<char>, from: usize, to: usize) -> (r: Option<usize>)
    requires
        from <= to <= v.len(),
    ensures
        r == parsed(v@.subrange(from as int, to as int)),
{
    let ghost s = v@.subrange(from as int, to as int);
    let mut start = from;
    if from < to && v[from] == '+' {
        start = from + 1;
    }
    let ghost t = unsigned(s);
    proof {
        assert(t =~= v@.subrange(start as int, to as int));
    }
    if start == to {
        return None;
    }
    let mut acc: usize = 0;
    let mut k: usize = start;
    proof {
        assert(t.take(0) =~= Seq::<char>::empty());
    }
    while k < to
        invariant
            start <= k <= to <= v.len(),
            start < to,
            t == v@.subrange(start as int, to as int),
            s == v@.subrange(from as int, to as int),
            t == unsigned(s),
            forall|j: int| 0 <= j < k - start ==> is_digit(#[trigger] t[j]),
            acc == value(t.take(k - start)),
        decreases to - k,
    {
        let c = v[k];
        proof {
            assert(t[k - start] == c);
        }
        if !(c >= '0' && c <= '9') {
            return None;
        }
        let d = (c as u32 - '0' as u32) as usize;
        proof {
            assert(t.take(k - start + 1).drop_last() =~= t.take(k - start));
            assert(t.take(k - start + 1).last() == c);
            assert(value(t.take(k - start + 1)) == acc * 10 + d);
        }
        if acc > (usize::MAX - d) / 10 {
            proof {
                lemma_value_grows(t, k - start + 1);
                assert(acc * 10 + d > usize::MAX);
            }
            return None;
        }
        acc = acc * 10 + d;
        k = k + 1;
    }
    proof {
        assert(t.take(to - start) =~= t);
    }
    Some(acc)
}

/// The digits that spell `n` in base ten.
pub open spec fn decimal(n: nat) -> Seq<char>
    decreases n,
{
    if n < 10 {
        seq![(('0' as nat + n) as u8) as char]
    } else {
        decimal(n / 10).push((('0' as nat + n % 10) as u8) as char)
    }
}

/// The digits that spell `n` in base ten.
pub fn to_decimal(n: usize) -> (r: Vec<char>)
    ensures
        r@ == decimal(n as nat),
{
    let mut digits: Vec<char> = Vec::new();
    let mut rest = n;
    // The digits are found from the last to the first.
    let ghost mut tail: Seq<char> = Seq::empty();
    while rest >= 10
        invariant
            digits@.len() == tail.len(),
            forall|k: int| 0 <= k < tail.len() ==> #[trigger] digits@[k] == tail[tail.len() - 1 - k],
            decimal(n as nat) == decimal(rest as nat) + tail,
        decreases rest,
    {
        let d = (rest % 10) as u8;
        let c = (48u8 + d) as char;
        proof {
            assert(decimal(rest as nat) == decimal((rest / 10) as nat).push(c));
            assert(decimal((rest / 10) as nat).push(c) + tail =~= decimal((rest / 10) as nat) + (seq![c]
                + tail));
            tail = seq![c] + tail;
        }
        digits.push(c);
        rest = rest / 10;
    }
    let c = (48u8 + rest as u8) as char;
    proof {
        assert(decimal(rest as nat) =~= seq![c]);
        tail = seq![c] + tail;
    }
    digits.push(c);
    let mut r: Vec<char> = Vec::new();
    let mut k: usize = digits.len();
    while k > 0
        invariant
            k <= digits.len(),
            digits@.len() == tail.len(),
            forall|j: int| 0 <= j < tail.len() ==> #[trigger] digits@[j] == tail[tail.len() - 1 - j],
            r@ == tail.take(digits.len() - k),
        decreases k,
    {
        k = k - 1;
        r.push(digits[k]);
        proof {
            assert(r@ =~= tail.take(digits.len() - k));
        }
    }
    proof {
        assert(tail.take(tail.len() as int) =~= tail);
    }
    r
}

/// The lower-case form of an ASCII capital, and every other character as it
/// is.
pub open spec fn lower(c: char) -> char {
    if 'A' <= c <= 'Z' {
        ((c as u8) + 32) as char
    } else {
        c
    }
}

/// The text with every ASCII capital in lower case.
pub open spec fn lowered(s: Seq<char>) -> Seq<char> {
    Seq::new(s.len(), |k: int| lower(s[k]))
}

/// The lower-case form of a character.
pub fn to_lower(c: char) -> (r: char)
    ensures
        r == lower(c),
{
    if c >= 'A' && c <= 'Z' {
        ((c as u8) + 32) as char
    } else {
        c
    }
}

/// Whether the characters of `v` from `from` up to `to` are those of `word`.
pub fn is_word(v: &Vec<char>, from: usize, to: usize, word: &str) -> (r: bool)
    requires
        from <= to <= v.len(),
    ensures
        r == (v@.subrange(from as int, to as int) == word@),
{
    let w = chars_of(word);
    let ghost part = v@.subrange(from as int, to as int);
    if w.len() != to - from {
        proof {
            assert(part.len() != w@.len());
        }
        return false;
    }
    let mut k: usize = 0;
    while k < w.len()
        invariant
            k <= w.len(),
            w.len() == to - from,
            from <= to <= v.len(),
            w@ == word@,
            part == v@.subrange(from as int, to as int),
            forall|j: int| 0 <= j < k ==> #[trigger] part[j] == w@[j],
        decreases w.len() - k,
    {
        if v[from + k] != w[k] {
            proof {
                assert(part[k as int] != w@[k as int]);
            }
            return false;
        }
        k = k + 1;
    }
    proof {
        assert(part =~= w@);
    }
    true
}

} // verus!
