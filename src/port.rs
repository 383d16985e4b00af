//! Checking the command line: one argument, a port number from 1024 on.
use vstd::prelude::*;
use crate::request::chars_of;

verus! {

/// The smallest port accepted.
pub const MIN_PORT: u16 = 1024;

/// Whether `c` is an ASCII decimal digit.
pub open spec fn is_digit(c: char) -> bool {
    '0' <= c <= '9'
}

/// The number written by a string of decimal digits.
pub open spec fn digits_value(s: Seq<char>) -> nat
    decreases s.len(),
{
    if s.len() == 0 {
        0
    } else {
        digits_value(s.drop_last()) * 10 + (s.last() as nat - '0' as nat) as nat
    }
}

/// A number's text without its leading `+`, if it has one.
pub open spec fn without_plus(s: Seq<char>) -> Seq<char> {
    if s.len() > 0 && s[0] == '+' {
        s.drop_first()
    } else {
        s
    }
}

/// The number a text gives as a `u16` (`u16::from_str`): an optional `+`
/// and then one or more decimal digits, of value at most 65535.
pub open spec fn u16_value(s: Seq<char>) -> Option<u16> {
    let d = without_plus(s);
    if d.len() > 0 && (forall|i: int| 0 <= i < d.len() ==> is_digit(#[trigger] d[i]))
        && digits_value(d) <= 65535 {
        Some(digits_value(d) as u16)
    } else {
        None
    }
}

/// The port given on a command line (program name first): there must be
/// exactly one argument, a number from 1024 to 65535.
pub open spec fn port_of(args: Seq<String>) -> Option<u16> {
    if args.len() != 2 {
        None
    } else {
        match u16_value(args[1]@) {
            Some(p) => if p >= MIN_PORT {
                Some(p)
            } else {
                None
            },
            None => None,
        }
    }
}

/// A longer run of digits is worth at least as much as its prefix.
proof fn lemma_digits_grow(s: Seq<char>, n: int)
    requires
        0 <= n <= s.len(),
        forall|i: int| 0 <= i < s.len() ==> is_digit(#[trigger] s[i]),
    ensures
        digits_value(s.subrange(0, n)) <= digits_value(s),
    decreases s.len() - n,
{
    if n < s.len() {
        lemma_digits_grow(s, n + 1);
        let p = s.subrange(0, n + 1);
        assert(p.drop_last() =~= s.subrange(0, n));
    } else {
        assert(s.subrange(0, n) =~= s);
    }
}

/// Reads the port from a command line whose first item is the program's
/// name. `None` stands for a usage error: another number of arguments, an
/// argument that is not a `u16`, or a port below 1024.
pub fn parse_port(args: &[String]) -> (r: Option<u16>)
    ensures
        r == port_of(args@),
{
    if args.len() != 2 {
        return None;
    }
    let v = chars_of(args[1].as_str());
    let ghost s = args@[1]@;
    let from: usize = if v.len() > 0 && v[0] == '+' {
        1
    } else {
        0
    };
    let ghost d = s.subrange(from as int, s.len() as int);
    assert(d =~= without_plus(s));
    if from >= v.len() {
        return None;
    }
    let mut value: u32 = 0;
    let mut i: usize = from;
    while i < v.len()
        invariant
            from <= i <= v.len(),
            v@ == s,
            d == s.subrange(from as int, s.len() as int),
            d == without_plus(s),
            args@.len() == 2,
            s == args@[1]@,
            forall|k: int| 0 <= k < i - from ==> is_digit(#[trigger] d[k]),
            value as nat == digits_value(d.subrange(0, i - from)),
            value <= 65535,
        decreases v.len() - i,
    {
        let c = v[i];
        if !('0' <= c && c <= '9') {
            assert(!is_digit(d[i - from]));
            return None;
        }
        let ghost prefix = d.subrange(0, i + 1 - from);
        assert(prefix.drop_last() =~= d.subrange(0, i - from));
        let next = value * 10 + (c as u32 - '0' as u32);
        assert(prefix.last() == c);
        assert(digits_value(prefix) == next as nat);
        if next > 65535 {
            proof {
                assert forall|k: int| 0 <= k < prefix.len() implies is_digit(#[trigger] prefix[k]) by {
                    assert(prefix[k] == d[k]);
                }
                if forall|k: int| 0 <= k < d.len() ==> is_digit(#[trigger] d[k]) {
                    lemma_digits_grow(d, i + 1 - from);
                }
            }
            return None;
        }
        value = next;
        i = i + 1;
    }
    assert(d.subrange(0, d.len() as int) =~= d);
    let port = value as u16;
    if port < MIN_PORT {
        return None;
    }
    Some(port)
}

} // verus!
