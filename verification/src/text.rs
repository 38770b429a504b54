//! Decimal numbers and the splitting of messages into fields.

use vstd::prelude::*;

verus! {

/// The texts of a list of messages.
pub open spec fn texts(msgs: Seq<Vec<u8>>) -> Seq<Seq<u8>> {
    msgs.map_values(|m: Vec<u8>| m@)
}

/// The ASCII code of the digit `d` (`d < 10`).
pub open spec fn digit_byte(d: nat) -> u8 {
    (48 + d) as u8
}

/// Whether `b` is an ASCII decimal digit.
pub open spec fn is_digit(b: u8) -> bool {
    48 <= b <= 57
}

/// The decimal text of `n`, without sign or leading zeros.
pub open spec fn decimal(n: nat) -> Seq<u8>
    decreases n,
{
    if n < 10 {
        seq![digit_byte(n)]
    } else {
        decimal(n / 10).push(digit_byte(n % 10))
    }
}

/// Whether every byte of `s` is a decimal digit.
pub open spec fn all_digits(s: Seq<u8>) -> bool {
    forall|i: int| 0 <= i < s.len() ==> is_digit(#[trigger] s[i])
}

/// The value of the digits `s`, read as a decimal number.
pub open spec fn digits_value(s: Seq<u8>) -> nat
    decreases s.len(),
{
    if s.len() == 0 {
        0
    } else {
        digits_value(s.drop_last()) * 10 + ((s.last() - 48) as nat)
    }
}

/// The digits of a number text: what follows an optional leading `+`.
pub open spec fn unsigned_body(s: Seq<u8>) -> Seq<u8> {
    if s.len() > 0 && s[0] == 43 {
        s.drop_first()
    } else {
        s
    }
}

/// What reading `s` as a `u32` gives: an optional `+`, then one digit or
/// more, of a value that fits in `u32`; `None` for anything else.
pub open spec fn parse_u32_spec(s: Seq<u8>) -> Option<u32> {
    let body = unsigned_body(s);
    if body.len() > 0 && all_digits(body) && digits_value(body) <= u32::MAX {
        Some(digits_value(body) as u32)
    } else {
        None
    }
}

/// What reading `s` as a `usize` gives: an optional `+`, then one digit
/// or more, of a value that fits in `usize`; `None` for anything else.
pub open spec fn parse_usize_spec(s: Seq<u8>) -> Option<usize> {
    let body = unsigned_body(s);
    if body.len() > 0 && all_digits(body) && digits_value(body) <= usize::MAX {
        Some(digits_value(body) as usize)
    } else {
        None
    }
}

/// The decimal text of a number is made of digits, and reads back as it.
pub proof fn lemma_decimal_is_digits(n: nat)
    ensures
        all_digits(decimal(n)),
        decimal(n).len() > 0,
        digits_value(decimal(n)) == n,
    decreases n,
{
    if n >= 10 {
        lemma_decimal_is_digits(n / 10);
        let s = decimal(n);
        assert(s.drop_last() =~= decimal(n / 10));
        assert(s.last() == digit_byte(n % 10));
        assert(((48 + n % 10) as u8) as nat == 48 + n % 10);
        assert(digits_value(s) == digits_value(decimal(n / 10)) * 10 + n % 10);
        assert((n / 10) * 10 + n % 10 == n);
        assert forall|i: int| 0 <= i < s.len() implies is_digit(#[trigger] s[i]) by {
            if i < s.len() - 1 {
                assert(s[i] == decimal(n / 10)[i]);
            }
        }
    } else {
        let s = decimal(n);
        assert(s.drop_last() =~= Seq::<u8>::empty());
        assert(((48 + n) as u8) as nat == 48 + n);
        assert(digits_value(s.drop_last()) == 0);
        assert(digits_value(s) == n);
    }
}

/// Reading back the decimal text of a number gives the number.
pub proof fn lemma_parse_decimal(n: u32)
    ensures
        parse_u32_spec(decimal(n as nat)) == Some(n),
{
    lemma_decimal_is_digits(n as nat);
    let s = decimal(n as nat);
    assert(is_digit(s[0]));
}

/// Appends the decimal text of `n` to `out`.
fn push_decimal(out: &mut Vec<u8>, n: u32)
    ensures
        final(out)@ == old(out)@ + decimal(n as nat),
    decreases n,
{
    if n < 10 {
        out.push(48 + n as u8);
        assert(decimal(n as nat) =~= seq![digit_byte(n as nat)]);
    } else {
        push_decimal(out, n / 10);
        out.push(48 + (n % 10) as u8);
    }
}

/// The decimal text of `n`.
pub fn encode_u32(n: u32) -> (text: Vec<u8>)
    ensures
        text@ == decimal(n as nat),
{
    let mut out: Vec<u8> = Vec::new();
    push_decimal(&mut out, n);
    assert(out@ =~= decimal(n as nat));
    out
}

/// Reads `s` as a `u32`, as `str::parse::<u32>` reads text: an optional
/// `+`, then decimal digits whose value fits in `u32`.
pub fn parse_u32(s: &[u8]) -> (result: Option<u32>)
    ensures
        result == parse_u32_spec(s@),
{
    let len = s.len();
    let mut start: usize = 0;
    if len > 0 && s[0] == 43u8 {
        start = 1;
    }
    let ghost body = unsigned_body(s@);
    assert(body =~= s@.skip(start as int));
    if start == len {
        return None;
    }
    let mut value: u64 = 0;
    let mut overflow = false;
    let mut i: usize = start;
    while i < len
        invariant
            start <= i <= len,
            len == s@.len(),
            body == s@.skip(start as int),
            body == unsigned_body(s@),
            all_digits(body.take(i - start)),
            !overflow ==> value == digits_value(body.take(i - start)),
            !overflow ==> value <= u32::MAX,
            overflow ==> digits_value(body.take(i - start)) > u32::MAX,
        decreases len - i,
    {
        let b = s[i];
        if b < 48u8 || b > 57u8 {
            assert(body[i - start] == b);
            assert(!is_digit(body[i - start]));
            return None;
        }
        let ghost prev = body.take(i - start);
        let ghost next = body.take(i - start + 1);
        assert(next.drop_last() =~= prev);
        assert(next.last() == b);
        assert(all_digits(next)) by {
            assert forall|j: int| 0 <= j < next.len() implies is_digit(#[trigger] next[j]) by {
                if j < next.len() - 1 {
                    assert(next[j] == prev[j]);
                }
            }
        }
        if !overflow {
            value = value * 10 + (b - 48u8) as u64;
            if value > 4294967295u64 {
                overflow = true;
            }
        } else {
            assert(digits_value(next) >= digits_value(prev));
        }
        i = i + 1;
    }
    assert(body.take(len - start) =~= body);
    if overflow {
        None
    } else {
        Some(value as u32)
    }
}

/// Reads `s` as a `usize`, as `str::parse::<usize>` reads text: an
/// optional `+`, then decimal digits whose value fits in `usize`.
pub fn parse_usize(s: &[u8]) -> (result: Option<usize>)
    ensures
        result == parse_usize_spec(s@),
{
    let len = s.len();
    let mut start: usize = 0;
    if len > 0 && s[0] == 43u8 {
        start = 1;
    }
    let ghost body = unsigned_body(s@);
    assert(body =~= s@.skip(start as int));
    if start == len {
        return None;
    }
    let mut value: u128 = 0;
    let mut overflow = false;
    let mut i: usize = start;
    while i < len
        invariant
            start <= i <= len,
            len == s@.len(),
            body == s@.skip(start as int),
            body == unsigned_body(s@),
            all_digits(body.take(i - start)),
            !overflow ==> value == digits_value(body.take(i - start)),
            !overflow ==> value <= usize::MAX,
            overflow ==> digits_value(body.take(i - start)) > usize::MAX,
        decreases len - i,
    {
        let b = s[i];
        if b < 48u8 || b > 57u8 {
            assert(body[i - start] == b);
            assert(!is_digit(body[i - start]));
            return None;
        }
        let ghost prev = body.take(i - start);
        let ghost next = body.take(i - start + 1);
        assert(next.drop_last() =~= prev);
        assert(next.last() == b);
        assert(all_digits(next)) by {
            assert forall|j: int| 0 <= j < next.len() implies is_digit(#[trigger] next[j]) by {
                if j < next.len() - 1 {
                    assert(next[j] == prev[j]);
                }
            }
        }
        if !overflow {
            value = value * 10 + (b - 48u8) as u128;
            if value > usize::MAX as u128 {
                overflow = true;
            }
        } else {
            assert(digits_value(next) >= digits_value(prev));
        }
        i = i + 1;
    }
    assert(body.take(len - start) =~= body);
    if overflow {
        None
    } else {
        Some(value as usize)
    }
}

/// The index of the first byte `c` of `s` at or after `from`, or the length
/// of `s` where there is none.
pub open spec fn field_end(s: Seq<u8>, c: u8, from: int) -> int
    decreases s.len() - from,
{
    if from >= s.len() {
        s.len() as int
    } else if s[from] == c {
        from
    } else {
        field_end(s, c, from + 1)
    }
}

/// The first field of `s` when it is split at each byte `sep`: all of `s`
/// up to the first `sep`.
pub open spec fn first_field(s: Seq<u8>, sep: u8) -> Seq<u8> {
    s.take(field_end(s, sep, 0))
}

/// The first two fields of `s` when it is split at each byte `sep`, where
/// there are two (where `s` holds a `sep`).
pub open spec fn first_two_fields(s: Seq<u8>, sep: u8) -> Option<(Seq<u8>, Seq<u8>)> {
    let e0 = field_end(s, sep, 0);
    if e0 < s.len() {
        Some((s.take(e0), s.subrange(e0 + 1, field_end(s, sep, e0 + 1))))
    } else {
        None
    }
}

/// `field_end` is the first `c` at or after `from`.
pub proof fn lemma_field_end(s: Seq<u8>, c: u8, from: int, to: int)
    requires
        0 <= from <= to <= s.len(),
        forall|k: int| from <= k < to ==> s[k] != c,
        to == s.len() || s[to] == c,
    ensures
        field_end(s, c, from) == to,
    decreases to - from,
{
    if from < to {
        lemma_field_end(s, c, from + 1, to);
    }
}

proof fn lemma_field_end_bounds(s: Seq<u8>, c: u8, from: int)
    requires
        0 <= from <= s.len(),
    ensures
        from <= field_end(s, c, from) <= s.len(),
        forall|k: int| from <= k < field_end(s, c, from) ==> s[k] != c,
        field_end(s, c, from) == s.len() || s[field_end(s, c, from)] == c,
    decreases s.len() - from,
{
    if from < s.len() && s[from] != c {
        lemma_field_end_bounds(s, c, from + 1);
    }
}

/// The index of the first byte `c` of `s` at or after `from`, or the
/// length of `s` where there is none.
pub fn find_byte(s: &[u8], c: u8, from: usize) -> (end: usize)
    requires
        from <= s@.len(),
    ensures
        end as int == field_end(s@, c, from as int),
{
    let mut i = from;
    while i < s.len() && s[i] != c
        invariant
            from <= i <= s@.len(),
            forall|k: int| from <= k < i ==> s@[k] != c,
        decreases s@.len() - i,
    {
        i = i + 1;
    }
    proof {
        lemma_field_end(s@, c, from as int, i as int);
    }
    i
}

/// The bytes `s[start..end]`.
pub fn copy_range(s: &[u8], start: usize, end: usize) -> (out: Vec<u8>)
    requires
        start <= end <= s@.len(),
    ensures
        out@ == s@.subrange(start as int, end as int),
{
    let mut out: Vec<u8> = Vec::new();
    let mut i = start;
    while i < end
        invariant
            start <= i <= end <= s@.len(),
            out@ == s@.subrange(start as int, i as int),
        decreases end - i,
    {
        out.push(s[i]);
        i = i + 1;
        assert(out@ =~= s@.subrange(start as int, i as int));
    }
    out
}

/// The first field of `s` when it is split at each `sep`.
pub fn split_first(s: &[u8], sep: u8) -> (field: Vec<u8>)
    ensures
        field@ == first_field(s@, sep),
{
    let end = find_byte(s, sep, 0);
    proof {
        lemma_field_end_bounds(s@, sep, 0);
    }
    let field = copy_range(s, 0, end);
    assert(field@ =~= first_field(s@, sep));
    field
}

/// The first two fields of `s` when it is split at each `sep`, as
/// `str::split` gives them; `None` where `s` holds no `sep`.
pub fn split_first_two(s: &[u8], sep: u8) -> (fields: Option<(Vec<u8>, Vec<u8>)>)
    ensures
        match fields {
            Some((a, b)) => first_two_fields(s@, sep) == Some((a@, b@)),
            None => first_two_fields(s@, sep) is None,
        },
{
    let e0 = find_byte(s, sep, 0);
    proof {
        lemma_field_end_bounds(s@, sep, 0);
    }
    if e0 == s.len() {
        return None;
    }
    let e1 = find_byte(s, sep, e0 + 1);
    proof {
        lemma_field_end_bounds(s@, sep, e0 + 1);
    }
    let a = copy_range(s, 0, e0);
    let b = copy_range(s, e0 + 1, e1);
    assert(a@ =~= s@.take(e0 as int));
    Some((a, b))
}

/// Appends `bytes` to `out`.
pub fn push_bytes(out: &mut Vec<u8>, bytes: &[u8])
    ensures
        final(out)@ == old(out)@ + bytes@,
{
    let mut i: usize = 0;
    while i < bytes.len()
        invariant
            i <= bytes@.len(),
            out@ == old(out)@ + bytes@.take(i as int),
        decreases bytes@.len() - i,
    {
        out.push(bytes[i]);
        i = i + 1;
        assert(out@ =~= old(out)@ + bytes@.take(i as int));
    }
    assert(bytes@.take(i as int) =~= bytes@);
}

/// A copy of the bytes `m`.
pub fn copy_bytes(m: &[u8]) -> (c: Vec<u8>)
    ensures
        c@ == m@,
{
    let mut c: Vec<u8> = Vec::new();
    let mut i: usize = 0;
    while i < m.len()
        invariant
            i <= m@.len(),
            c@ == m@.take(i as int),
        decreases m@.len() - i,
    {
        c.push(m[i]);
        i = i + 1;
        assert(c@ =~= m@.take(i as int));
    }
    assert(m@.take(i as int) =~= m@);
    c
}

/// Whether `a` and `b` hold the same bytes.
pub fn bytes_eq(a: &[u8], b: &[u8]) -> (same: bool)
    ensures
        same == (a@ == b@),
{
    if a.len() != b.len() {
        return false;
    }
    let mut i: usize = 0;
    while i < a.len()
        invariant
            a@.len() == b@.len(),
            i <= a@.len(),
            forall|k: int| 0 <= k < i ==> a@[k] == b@[k],
        decreases a@.len() - i,
    {
        if a[i] != b[i] {
            return false;
        }
        i = i + 1;
    }
    assert(a@ =~= b@);
    true
}

} // verus!
