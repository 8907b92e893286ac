//! The call request that the two sides of a call exchange over TCP before
//! the call starts: `type:<sample type> port:<UDP port>`.
use vstd::prelude::*;
use vstd::string::StrSliceExecFns;

verus! {

/// The character of a decimal digit.
pub open spec fn digit_char(d: nat) -> char {
    (d + 48) as char
}

/// Whether a character is a decimal digit.
pub open spec fn is_digit(c: char) -> bool {
    '0' <= c && c <= '9'
}

/// The value of a decimal digit character.
pub open spec fn digit_value(c: char) -> nat {
    (c as int - 48) as nat
}

/// The decimal representation of `n`, without leading zeros.
pub open spec fn decimal(n: nat) -> Seq<char>
    decreases n,
{
    if n < 10 {
        seq![digit_char(n)]
    } else {
        decimal(n / 10).push(digit_char(n % 10))
    }
}

/// Whether every character of `s` is a decimal digit.
pub open spec fn all_digits(s: Seq<char>) -> bool {
    forall|i: int| 0 <= i < s.len() ==> is_digit(#[trigger] s[i])
}

/// The number that a string of decimal digits denotes.
pub open spec fn digits_value(s: Seq<char>) -> nat
    decreases s.len(),
{
    if s.len() == 0 {
        0
    } else {
        digits_value(s.drop_last()) * 10 + digit_value(s.last())
    }
}

/// What `from_str` of an unsigned integer type with maximum `max` gives for
/// `s`: an optional `+` followed by at least one decimal digit, whose value
/// is at most `max`; `None` for anything else.
pub open spec fn parse_unsigned(s: Seq<char>, max: nat) -> Option<nat> {
    let digits = if s.len() > 0 && s[0] == '+' {
        s.drop_first()
    } else {
        s
    };
    if digits.len() == 0 || !all_digits(digits) || digits_value(digits) > max {
        None
    } else {
        Some(digits_value(digits))
    }
}

/// The position of the first `c` in `s`, if there is one.
pub open spec fn first_index(s: Seq<char>, c: char) -> Option<nat>
    decreases s.len(),
{
    if s.len() == 0 {
        None
    } else if s[0] == c {
        Some(0)
    } else {
        match first_index(s.drop_first(), c) {
            Some(i) => Some(i + 1),
            None => None,
        }
    }
}

/// The two fields of a call request: the text between the first `:` and the
/// first space, and the text after the first `:` that follows that space.
/// `None` where there is no `:`, no space, no `:` after the space, or the
/// first space comes before the first `:`.
pub open spec fn call_req_fields(s: Seq<char>) -> Option<(Seq<char>, Seq<char>)> {
    match (first_index(s, ':'), first_index(s, ' ')) {
        (Some(i), Some(j)) => if i < j {
            let end = s.subrange(j as int, s.len() as int);
            match first_index(end, ':') {
                Some(k) => Some((s.subrange(i as int + 1, j as int), end.subrange(k as int + 1, end.len() as int))),
                None => None,
            }
        } else {
            None
        },
        _ => None,
    }
}

/// The sample type and UDP port that a call request names, or `None` where
/// it is malformed.
pub open spec fn spec_parse_call_req(s: Seq<char>) -> Option<(u8, u16)> {
    match call_req_fields(s) {
        Some((t, p)) => match (parse_unsigned(t, 0xff), parse_unsigned(p, 0xffff)) {
            (Some(a), Some(b)) => Some((a as u8, b as u16)),
            _ => None,
        },
        None => None,
    }
}

/// The call request that names a sample type and a UDP port.
pub open spec fn spec_call_req(my_sample_type: u8, my_udp_port: u16) -> Seq<char> {
    seq!['t', 'y', 'p', 'e', ':'] + decimal(my_sample_type as nat) + seq![' ', 'p', 'o', 'r', 't', ':']
        + decimal(my_udp_port as nat)
}

/// `String::push`: appends one character.
#[verifier::external_body]
fn string_push(s: &mut String, c: char)
    ensures
        final(s)@ == old(s)@.push(c),
{
    s.push(c)
}

fn push_literal(s: &mut String, lit: &[char])
    ensures
        final(s)@ == old(s)@ + lit@,
{
    let ghost s0 = s@;
    for i in 0..lit.len()
        invariant
            s@ == s0 + lit@.take(i as int),
    {
        string_push(s, lit[i]);
        assert(s@ =~= s0 + lit@.take(i + 1));
    }
    assert(lit@.take(lit@.len() as int) =~= lit@);
}

fn digit_to_char(d: u16) -> (c: char)
    requires
        d < 10,
    ensures
        c == digit_char(d as nat),
{
    let b: u8 = (d as u8) + 48;
    b as char
}

/// Appends the decimal representation of `n`.
fn push_decimal(s: &mut String, n: u16)
    ensures
        final(s)@ == old(s)@ + decimal(n as nat),
    decreases n,
{
    if n >= 10 {
        push_decimal(s, n / 10);
    }
    string_push(s, digit_to_char(n % 10));
    proof {
        if n < 10 {
            assert(n % 10 == n);
        }
    }
}

/// Builds the call request `type:<my_sample_type> port:<my_udp_port>`.
pub fn write_call_req(my_sample_type: u8, my_udp_port: u16) -> (req: String)
    ensures
        req@ == spec_call_req(my_sample_type, my_udp_port),
{
    let mut req = String::new();
    push_literal(&mut req, &['t', 'y', 'p', 'e', ':']);
    push_decimal(&mut req, my_sample_type as u16);
    push_literal(&mut req, &[' ', 'p', 'o', 'r', 't', ':']);
    push_decimal(&mut req, my_udp_port);
    req
}

proof fn lemma_first_index_found(s: Seq<char>, c: char, i: int)
    requires
        0 <= i < s.len(),
        s[i] == c,
        forall|m: int| 0 <= m < i ==> s[m] != c,
    ensures
        first_index(s, c) == Some(i as nat),
    decreases s.len(),
{
    if i > 0 {
        lemma_first_index_found(s.drop_first(), c, i - 1);
    }
}

proof fn lemma_first_index_absent(s: Seq<char>, c: char)
    requires
        forall|m: int| 0 <= m < s.len() ==> s[m] != c,
    ensures
        first_index(s, c) is None,
    decreases s.len(),
{
    if s.len() > 0 {
        lemma_first_index_absent(s.drop_first(), c);
    }
}

/// A prefix of a digit string denotes no more than the whole string.
proof fn lemma_digits_value_prefix(s: Seq<char>, k: int)
    requires
        0 <= k <= s.len(),
        all_digits(s),
    ensures
        digits_value(s.take(k)) <= digits_value(s),
    decreases s.len(),
{
    if k < s.len() {
        let t = s.drop_last();
        assert(all_digits(t));
        assert(t.take(k) =~= s.take(k));
        lemma_digits_value_prefix(t, k);
    } else {
        assert(s.take(k) =~= s);
    }
}

/// The characters of a string.
fn chars_of(req: &String) -> (v: Vec<char>)
    ensures
        v@ == req@,
{
    let s = req.as_str();
    let n = s.unicode_len();
    let mut v: Vec<char> = Vec::new();
    for i in 0..n
        invariant
            n == s@.len(),
            s@ == req@,
            v@ == s@.take(i as int),
    {
        v.push(s.get_char(i));
        assert(v@ =~= s@.take(i + 1));
    }
    assert(s@.take(n as int) =~= s@);
    v
}

/// The position, counted from `from`, of the first `c` at or after `from`.
fn find_char(v: &Vec<char>, from: usize, c: char) -> (r: Option<usize>)
    requires
        from <= v@.len(),
    ensures
        r == (match first_index(v@.subrange(from as int, v@.len() as int), c) {
            Some(i) => Some(i as usize),
            None => None,
        }),
        r matches Some(i) ==> from + i < v@.len() && first_index(
            v@.subrange(from as int, v@.len() as int),
            c,
        ) == Some(i as nat),
{
    let ghost sub = v@.subrange(from as int, v@.len() as int);
    let mut i = from;
    while i < v.len()
        invariant
            from <= i <= v@.len(),
            sub == v@.subrange(from as int, v@.len() as int),
            forall|m: int| 0 <= m < i - from ==> sub[m] != c,
        decreases v.len() - i,
    {
        if v[i] == c {
            proof {
                lemma_first_index_found(sub, c, i - from);
            }
            return Some(i - from);
        }
        i += 1;
    }
    proof {
        lemma_first_index_absent(sub, c);
    }
    None
}

/// `from_str` of an unsigned integer type with maximum `max` (at most
/// `0xffff`) on the characters `lo..hi` of `v`.
fn parse_unsigned_at(v: &Vec<char>, lo: usize, hi: usize, max: u32) -> (r: Option<u32>)
    requires
        lo <= hi <= v@.len(),
        max <= 0xffff,
    ensures
        r == (match parse_unsigned(v@.subrange(lo as int, hi as int), max as nat) {
            Some(x) => Some(x as u32),
            None => None,
        }),
{
    let ghost s = v@.subrange(lo as int, hi as int);
    let mut start = lo;
    if hi > lo && v[lo] == '+' {
        start = lo + 1;
    }
    let ghost digits = v@.subrange(start as int, hi as int);
    assert(digits =~= (if s.len() > 0 && s[0] == '+' {
        s.drop_first()
    } else {
        s
    }));
    if start == hi {
        return None;
    }
    let mut acc: u32 = 0;
    let mut i = start;
    assert(digits.take(0) =~= Seq::<char>::empty());
    while i < hi
        invariant
            start <= i <= hi,
            hi <= v@.len(),
            max <= 0xffff,
            digits == v@.subrange(start as int, hi as int),
            s == v@.subrange(lo as int, hi as int),
            digits == (if s.len() > 0 && s[0] == '+' {
                s.drop_first()
            } else {
                s
            }),
            digits.len() > 0,
            acc as nat == digits_value(digits.take(i - start)),
            all_digits(digits.take(i - start)),
            acc <= max,
        decreases hi - i,
    {
        let c = v[i];
        if !('0' <= c && c <= '9') {
            assert(!is_digit(digits[i - start]));
            return None;
        }
        let d: u32 = (c as u32) - 48;
        let next: u32 = acc * 10 + d;
        proof {
            let t = digits.take(i - start + 1);
            assert(t.drop_last() =~= digits.take(i - start));
            assert(t.last() == c);
            assert(all_digits(t));
        }
        if next > max {
            proof {
                if all_digits(digits) {
                    lemma_digits_value_prefix(digits, i - start + 1);
                }
            }
            return None;
        }
        acc = next;
        i += 1;
    }
    assert(digits.take(i - start) =~= digits);
    Some(acc)
}

/// The sample type and UDP port named by a call request, or `None` where the
/// request is malformed.
pub fn try_parse_call_req(req: &String) -> (r: Option<(u8, u16)>)
    ensures
        r == spec_parse_call_req(req@),
{
    let v = chars_of(req);
    let n = v.len();
    let i = match find_char(&v, 0, ':') {
        Some(i) => i,
        None => {
            assert(v@.subrange(0, n as int) =~= v@);
            return None;
        },
    };
    let j = match find_char(&v, 0, ' ') {
        Some(j) => j,
        None => {
            assert(v@.subrange(0, n as int) =~= v@);
            return None;
        },
    };
    assert(v@.subrange(0, n as int) =~= v@);
    if !(i < j) {
        return None;
    }
    let k = match find_char(&v, j, ':') {
        Some(k) => k,
        None => {
            return None;
        },
    };
    let ghost end = v@.subrange(j as int, n as int);
    assert(v@.subrange(j + k + 1, n as int) =~= end.subrange(k + 1, end.len() as int));
    let t = match parse_unsigned_at(&v, i + 1, j, 0xff) {
        Some(t) => t,
        None => {
            return None;
        },
    };
    let p = match parse_unsigned_at(&v, j + k + 1, n, 0xffff) {
        Some(p) => p,
        None => {
            return None;
        },
    };
    Some((t as u8, p as u16))
}

/// Reads the sample type and UDP port out of a well-formed call request.
pub fn parse_call_req(req: String) -> (r: (u8, u16))
    requires
        spec_parse_call_req(req@) is Some,
    ensures
        spec_parse_call_req(req@) == Some(r),
{
    match try_parse_call_req(&req) {
        Some(r) => r,
        None => {
            proof {
                assert(false);
            }
            (0, 0)
        },
    }
}

/// The decimal representation of a number is a non-empty string of digits
/// that denotes the number.
pub proof fn lemma_decimal(n: nat)
    ensures
        decimal(n).len() >= 1,
        all_digits(decimal(n)),
        digits_value(decimal(n)) == n,
    decreases n,
{
    let c = digit_char(n % 10);
    assert(c as int == n % 10 + 48);
    if n >= 10 {
        lemma_decimal(n / 10);
        let d = decimal(n);
        assert(d.drop_last() =~= decimal(n / 10));
        assert(n == (n / 10) * 10 + n % 10) by (nonlinear_arith);
        assert(digit_value(d.last()) == n % 10);
        assert forall|i: int| 0 <= i < d.len() implies is_digit(#[trigger] d[i]) by {
            if i < d.len() - 1 {
                assert(d[i] == decimal(n / 10)[i]);
            }
        }
    } else {
        let d = decimal(n);
        assert(d.drop_last() =~= Seq::<char>::empty());
        assert(digits_value(Seq::<char>::empty()) == 0);
        assert(n % 10 == n);
    }
}

/// `from_str` reads back the decimal representation of any number that fits.
pub proof fn lemma_parse_decimal(n: nat, max: nat)
    requires
        n <= max,
    ensures
        parse_unsigned(decimal(n), max) == Some(n),
{
    lemma_decimal(n);
    assert(is_digit(decimal(n)[0]));
}

/// The fields of a call request are the decimal representations that it
/// was written with.
proof fn lemma_call_req_fields(my_sample_type: u8, my_udp_port: u16)
    ensures
        call_req_fields(spec_call_req(my_sample_type, my_udp_port)) == Some(
            (decimal(my_sample_type as nat), decimal(my_udp_port as nat)),
        ),
{
    let dt = decimal(my_sample_type as nat);
    let dp = decimal(my_udp_port as nat);
    lemma_decimal(my_sample_type as nat);
    lemma_decimal(my_udp_port as nat);
    let head = seq!['t', 'y', 'p', 'e', ':'];
    let tail = seq![' ', 'p', 'o', 'r', 't', ':'];
    let s = spec_call_req(my_sample_type, my_udp_port);
    let j = 5 + dt.len();
    assert(s == head + dt + tail + dp);
    assert(s.subrange(0, 5) =~= head);
    assert(s.subrange(5, j as int) =~= dt);
    let end = s.subrange(j as int, s.len() as int);
    assert(end =~= tail + dp);
    assert(end.subrange(0, 6) =~= tail);
    assert(end.subrange(6, end.len() as int) =~= dp);
    assert(s[4] == ':');
    assert forall|m: int| 0 <= m < 4 implies s[m] != ':' by {
        assert(s[m] == head[m]);
    }
    lemma_first_index_found(s, ':', 4);
    assert forall|m: int| 0 <= m < j implies s[m] != ' ' by {
        if m >= 5 {
            assert(s[m] == dt[m - 5]);
            assert(is_digit(dt[m - 5]));
        } else {
            assert(s[m] == head[m]);
        }
    }
    assert(s[j as int] == ' ');
    lemma_first_index_found(s, ' ', j as int);
    assert(end[5] == ':');
    assert forall|m: int| 0 <= m < 5 implies end[m] != ':' by {
        assert(end[m] == tail[m]);
    }
    lemma_first_index_found(end, ':', 5);
}

/// Reading a call request gives back the sample type and UDP port that it
/// was written with.
pub proof fn lemma_call_req_roundtrip(my_sample_type: u8, my_udp_port: u16)
    ensures
        spec_parse_call_req(spec_call_req(my_sample_type, my_udp_port)) == Some(
            (my_sample_type, my_udp_port),
        ),
{
    lemma_call_req_fields(my_sample_type, my_udp_port);
    lemma_parse_decimal(my_sample_type as nat, 0xff);
    lemma_parse_decimal(my_udp_port as nat, 0xffff);
}

} // verus!
