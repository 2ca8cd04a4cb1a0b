//! Channel addresses of the form `prefix:index:rest`.
use vstd::prelude::*;

verus! {

pub const SEPARATOR: char = ':';

pub open spec fn digit_char(d: nat) -> char {
    ((48 + d) as u8) as char
}

/// The decimal digits of `n`, without leading zeros.
pub open spec fn decimal(n: nat) -> Seq<char>
    decreases n,
{
    if n < 10 {
        seq![digit_char(n)]
    } else {
        decimal(n / 10).push(digit_char(n % 10))
    }
}

/// The address under which a client's channel is known upstream.
pub open spec fn address(prefix: Seq<char>, index: nat, name: Seq<char>) -> Seq<char> {
    prefix + seq![SEPARATOR] + decimal(index) + seq![SEPARATOR] + name
}

pub open spec fn is_digit(c: char) -> bool {
    '0' <= c <= '9'
}

pub open spec fn all_digits(s: Seq<char>) -> bool {
    forall|i: int| 0 <= i < s.len() ==> is_digit(s[i])
}

/// The number that a run of decimal digits spells.
pub open spec fn digits_value(s: Seq<char>) -> nat
    decreases s.len(),
{
    if s.len() == 0 {
        0
    } else {
        digits_value(s.drop_last()) * 10 + ((s.last() as u32) - 48) as nat
    }
}

/// Where the first separator stands in `s`, if it has one.
pub open spec fn first_separator(s: Seq<char>) -> Option<nat>
    decreases s.len(),
{
    if s.len() == 0 {
        None
    } else if s[0] == SEPARATOR {
        Some(0)
    } else {
        match first_separator(s.drop_first()) {
            Some(i) => Some(i + 1),
            None => None,
        }
    }
}

/// The client index and the remaining name that an address routes to: the
/// first part is the gateway's own, the second a decimal index that fits a
/// `usize`, and everything after the second separator is the rest.
pub open spec fn route_of(s: Seq<char>) -> Option<(nat, Seq<char>)> {
    match first_separator(s) {
        None => None,
        Some(i) => {
            let tail = s.skip(i + 1 as int);
            match first_separator(tail) {
                None => None,
                Some(j) => {
                    let digits = tail.take(j as int);
                    if digits.len() > 0 && all_digits(digits) && digits_value(digits)
                        <= usize::MAX {
                        Some((digits_value(digits), tail.skip(j + 1 as int)))
                    } else {
                        None
                    }
                },
            }
        },
    }
}

proof fn lemma_first_separator(s: Seq<char>, i: int)
    requires
        0 <= i <= s.len(),
        forall|k: int| 0 <= k < i ==> s[k] != SEPARATOR,
    ensures
        i < s.len() && s[i] == SEPARATOR ==> first_separator(s) == Some(i as nat),
        i == s.len() ==> first_separator(s) is None,
    decreases i,
{
    if i > 0 {
        lemma_first_separator(s.drop_first(), i - 1);
    } else if s.len() > 0 && s[0] != SEPARATOR {
        assert(i < s.len());
    }
}

/// Finds the first separator of `s` at or after `from`.
fn find_separator(s: &Vec<char>, from: usize) -> (r: Option<usize>)
    requires
        from <= s@.len(),
    ensures
        r matches Some(k) ==> from <= k < s@.len() && first_separator(s@.skip(from as int))
            == Some((k - from) as nat),
        r is None ==> first_separator(s@.skip(from as int)) is None,
{
    let ghost t = s@.skip(from as int);
    let mut i: usize = from;
    while i < s.len()
        invariant
            from <= i <= s@.len(),
            t == s@.skip(from as int),
            forall|k: int| 0 <= k < i - from ==> t[k] != SEPARATOR,
        decreases s@.len() - i,
    {
        if s[i] == SEPARATOR {
            proof {
                lemma_first_separator(t, i - from);
            }
            return Some(i);
        }
        i = i + 1;
    }
    proof {
        lemma_first_separator(t, i - from);
    }
    None
}

proof fn lemma_digits_value_prefix(s: Seq<char>, k: int)
    requires
        0 <= k <= s.len(),
    ensures
        digits_value(s.take(k)) <= digits_value(s),
    decreases s.len(),
{
    if k < s.len() {
        assert(s.drop_last().take(k) == s.take(k));
        lemma_digits_value_prefix(s.drop_last(), k);
    } else {
        assert(s.take(k) == s);
    }
}

/// Parses the digits `s[from..to]`; `None` where one is not a digit or the
/// number does not fit a `usize`.
fn parse_index(s: &Vec<char>, from: usize, to: usize) -> (r: Option<usize>)
    requires
        from <= to <= s@.len(),
    ensures
        ({
            let d = s@.subrange(from as int, to as int);
            if all_digits(d) && digits_value(d) <= usize::MAX {
                r == Some(digits_value(d) as usize)
            } else {
                r is None
            }
        }),
{
    let ghost d = s@.subrange(from as int, to as int);
    let mut acc: usize = 0;
    let mut i: usize = from;
    while i < to
        invariant
            from <= i <= to <= s@.len(),
            d == s@.subrange(from as int, to as int),
            all_digits(d.take(i - from)),
            acc == digits_value(d.take(i - from)),
        decreases to - i,
    {
        let c = s[i];
        proof {
            assert(d.take(i - from + 1).drop_last() == d.take(i - from));
        }
        if !('0' <= c && c <= '9') {
            assert(d[i - from] == c);
            assert(!all_digits(d));
            return None;
        }
        let v = (c as u32 - 48) as usize;
        proof {
            lemma_digits_value_prefix(d, i - from + 1);
        }
        if acc > (usize::MAX - v) / 10 {
            proof {
                assert(digits_value(d.take(i - from + 1)) == acc * 10 + v) by (nonlinear_arith)
                    requires
                        acc == digits_value(d.take(i - from)),
                        v == ((c as u32) - 48) as nat,
                        d.take(i - from + 1).drop_last() == d.take(i - from),
                        d.take(i - from + 1).last() == c,
                        d.take(i - from + 1).len() > 0,
                ;
                assert(acc * 10 + v > usize::MAX) by (nonlinear_arith)
                    requires
                        acc > (usize::MAX - v) / 10,
                        v <= 9,
                ;
            }
            return None;
        }
        assert(acc * 10 + v <= usize::MAX) by (nonlinear_arith)
            requires
                acc <= (usize::MAX - v) / 10,
                v <= 9,
        ;
        acc = acc * 10 + v;
        i = i + 1;
    }
    assert(d.take(to - from) == d);
    Some(acc)
}

/// Splits an address into the client index and the name that client knows;
/// `None` where the address is not of that form.
pub fn split_route(s: &Vec<char>) -> (r: Option<(usize, Vec<char>)>)
    ensures
        match route_of(s@) {
            Some((idx, rest)) => r matches Some(p) && p.0 == idx && p.1@ == rest,
            None => r is None,
        },
{
    let n = s.len();
    let first = find_separator(s, 0);
    assert(s@.skip(0) == s@);
    match first {
        None => {
            assert(first_separator(s@) is None);
            assert(route_of(s@) is None);
            None
        },
        Some(i) => {
            let second = find_separator(s, i + 1);
            let ghost tail = s@.skip(i + 1);
            match second {
                None => None,
                Some(j) => {
                    assert(tail.take(j - i - 1) == s@.subrange(i + 1, j as int));
                    if j == i + 1 {
                        assert(first_separator(s@) == Some(i as nat));
                        assert(first_separator(tail) == Some(0nat));
                        assert(tail.take(0).len() == 0);
                        assert(route_of(s@) is None);
                        return None;
                    }
                    match parse_index(s, i + 1, j) {
                        None => None,
                        Some(idx) => {
                            let mut rest: Vec<char> = Vec::new();
                            let mut k: usize = j + 1;
                            while k < s.len()
                                invariant
                                    j + 1 <= k <= s@.len(),
                                    rest@ == s@.subrange(j + 1, k as int),
                                decreases s@.len() - k,
                            {
                                rest.push(s[k]);
                                k = k + 1;
                            }
                            assert(tail.skip(j - i) == s@.subrange(j + 1, s@.len() as int));
                            Some((idx, rest))
                        },
                    }
                },
            }
        },
    }
}

fn push_decimal(out: &mut Vec<char>, n: usize)
    ensures
        final(out)@ == old(out)@ + decimal(n as nat),
    decreases n,
{
    if n >= 10 {
        push_decimal(out, n / 10);
    }
    let d = (n % 10) as u8;
    out.push((48u8 + d) as char);
    proof {
        if n < 10 {
            assert(decimal(n as nat) == seq![digit_char(n as nat)]);
        }
    }
}

/// Builds `prefix:index:name`.
pub fn make_address(prefix: &Vec<char>, index: usize, name: &Vec<char>) -> (r: Vec<char>)
    ensures
        r@ == address(prefix@, index as nat, name@),
{
    let mut out: Vec<char> = Vec::new();
    let mut i: usize = 0;
    while i < prefix.len()
        invariant
            i <= prefix@.len(),
            out@ == prefix@.take(i as int),
        decreases prefix@.len() - i,
    {
        out.push(prefix[i]);
        i = i + 1;
    }
    assert(prefix@.take(prefix@.len() as int) == prefix@);
    out.push(SEPARATOR);
    push_decimal(&mut out, index);
    out.push(SEPARATOR);
    let ghost head = out@;
    let mut k: usize = 0;
    while k < name.len()
        invariant
            k <= name@.len(),
            out@ == head + name@.take(k as int),
        decreases name@.len() - k,
    {
        out.push(name[k]);
        k = k + 1;
        assert(head + name@.take(k as int) == (head + name@.take(k - 1)).push(name@[k - 1]));
    }
    assert(name@.take(name@.len() as int) == name@);
    out
}

} // verus!
