//! Decimal numbers as text: what `str::parse` accepts for unsigned integers,
//! and the digits `format!("{n}")` writes.
use vstd::prelude::*;

use crate::text::push_char;

verus! {

/// `c` is an ASCII decimal digit.
pub open spec fn is_digit(c: char) -> bool {
    '0' <= c <= '9'
}

/// The number written by the decimal digits `s`.
pub open spec fn dec_value(s: Seq<char>) -> nat
    decreases s.len(),
{
    if s.len() == 0 {
        0
    } else {
        (dec_value(s.drop_last()) * 10 + (s.last() as int - '0' as int)) as nat
    }
}

/// The digits of an unsigned number: the text after an optional `+`.
pub open spec fn dec_digits(s: Seq<char>) -> Seq<char> {
    if s.len() > 0 && s[0] == '+' {
        s.drop_first()
    } else {
        s
    }
}

/// `s` is an optional `+` followed by at least one decimal digit.
pub open spec fn dec_ok(s: Seq<char>) -> bool {
    let d = dec_digits(s);
    d.len() > 0 && forall|i: int| 0 <= i < d.len() ==> is_digit(#[trigger] d[i])
}

proof fn lemma_dec_value_grows(s: Seq<char>, k: int)
    requires
        0 <= k <= s.len(),
        forall|i: int| 0 <= i < s.len() ==> is_digit(#[trigger] s[i]),
    ensures
        dec_value(s.take(k)) <= dec_value(s),
    decreases s.len() - k,
{
    if k < s.len() {
        let t = s.take(k + 1);
        assert(t.drop_last() =~= s.take(k));
        assert(is_digit(s[k]));
        lemma_dec_value_grows(s, k + 1);
    } else {
        assert(s.take(k) =~= s);
    }
}

/// Parse an unsigned decimal number the way `u64::from_str` does: an
/// optional `+`, then digits only; `None` also on overflow.
pub fn parse_u64(s: &str) -> (r: Option<u64>)
    ensures
        r is Some <==> dec_ok(s@) && dec_value(dec_digits(s@)) <= u64::MAX,
        r matches Some(v) ==> v == dec_value(dec_digits(s@)),
{
    let cs = crate::text::chars_of(s);
    let mut i: usize = 0;
    if cs.len() > 0 && cs[0] == '+' {
        i = 1;
    }
    let ghost d = dec_digits(s@);
    assert(d =~= s@.skip(i as int));
    if i >= cs.len() {
        return None;
    }
    let mut v: u64 = 0;
    let mut j = i;
    assert(d.take(0) =~= seq![]);
    while j < cs.len()
        invariant
            cs@ == s@,
            d == dec_digits(s@),
            d == s@.skip(i as int),
            i <= j <= cs@.len(),
            d.len() > 0,
            v == dec_value(d.take(j - i)),
            forall|k: int| 0 <= k < j - i ==> is_digit(#[trigger] d[k]),
        decreases cs@.len() - j,
    {
        let c = cs[j];
        if c < '0' || c > '9' {
            assert(!is_digit(d[j - i]));
            return None;
        }
        let digit = (c as u32 - '0' as u32) as u64;
        proof {
            let t = d.take(j - i + 1);
            assert(t.drop_last() =~= d.take(j - i));
            assert(t.last() == c);
        }
        if v > (u64::MAX - digit) / 10 {
            proof {
                let t = d.take(j - i + 1);
                assert(dec_value(t) > u64::MAX);
                if forall|k: int| 0 <= k < d.len() ==> is_digit(#[trigger] d[k]) {
                    lemma_dec_value_grows(d, j - i + 1);
                }
            }
            return None;
        }
        v = v * 10 + digit;
        j += 1;
    }
    assert(d.take(j - i) =~= d);
    Some(v)
}

/// The decimal digits of `n`, as `format!("{n}")` writes them.
pub open spec fn dec_string(n: nat) -> Seq<char>
    decreases n,
{
    if n < 10 {
        seq![('0' as u32 + n) as char]
    } else {
        dec_string(n / 10).push(('0' as u32 + n % 10) as char)
    }
}

/// Law: reading back what `format_u64` writes gives the number again.
pub proof fn dec_string_reads_back(n: nat)
    ensures
        dec_ok(dec_string(n)),
        dec_digits(dec_string(n)) == dec_string(n),
        dec_value(dec_string(n)) == n,
    decreases n,
{
    if n < 10 {
        let c = ('0' as u32 + n) as char;
        assert(c as int == 48 + n);
        assert(dec_string(n).drop_last() =~= Seq::<char>::empty());
        assert(dec_value(Seq::<char>::empty()) == 0);
        assert(dec_value(dec_string(n)) == dec_value(dec_string(n).drop_last()) * 10 + (c as int
            - 48));
    } else {
        dec_string_reads_back(n / 10);
        let s = dec_string(n);
        let c = ('0' as u32 + n % 10) as char;
        assert(c as int == 48 + n % 10);
        assert(s.last() == c);
        assert(n == (n / 10) * 10 + n % 10);
        assert(dec_value(s) == dec_value(s.drop_last()) * 10 + (c as int - 48));
        assert(s.drop_last() =~= dec_string(n / 10));
        assert forall|i: int| 0 <= i < s.len() implies is_digit(#[trigger] s[i]) by {
            if i < s.len() - 1 {
                assert(s[i] == dec_string(n / 10)[i]);
            }
        }
    }
}

/// Decimal text of `n`.
pub fn format_u64(n: u64) -> (s: String)
    ensures
        s@ == dec_string(n as nat),
    decreases n,
{
    if n < 10 {
        let mut s = String::new();
        push_char(&mut s, char_of_digit(n));
        s
    } else {
        let mut s = format_u64(n / 10);
        push_char(&mut s, char_of_digit(n % 10));
        s
    }
}

/// The digit character of `d < 10`.
fn char_of_digit(d: u64) -> (c: char)
    requires
        d < 10,
    ensures
        c == ('0' as u32 + d) as char,
{
    if d == 0 { '0' }
    else if d == 1 { '1' }
    else if d == 2 { '2' }
    else if d == 3 { '3' }
    else if d == 4 { '4' }
    else if d == 5 { '5' }
    else if d == 6 { '6' }
    else if d == 7 { '7' }
    else if d == 8 { '8' }
    else { '9' }
}

} // verus!
