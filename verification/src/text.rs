//! The text forms of addresses and subnets: the dotted quad
//! `"A.B.C.D"` and the CIDR form `"A.B.C.D/p"`.  Formatting writes the
//! canonical form; parsing accepts exactly the canonical form — four
//! decimal octets without leading zeros, and a prefix length of at most
//! 32 — and rejects everything else.

use vstd::prelude::*;
use vstd::string::*;
use vstd::arithmetic::div_mod::lemma_div_denominator;
use crate::subnet::{Subnet, compute_subnet, mask_of_prefix};

verus! {

/// A decimal digit.
pub open spec fn is_digit_char(c: char) -> bool {
    48 <= (c as u32) && (c as u32) <= 57
}

/// The value of a decimal digit.
pub open spec fn digit_val(c: char) -> int {
    (c as u32) - 48
}

/// The digit for a value below ten.
pub open spec fn digit_char(d: int) -> char {
    if d == 0 {
        '0'
    } else if d == 1 {
        '1'
    } else if d == 2 {
        '2'
    } else if d == 3 {
        '3'
    } else if d == 4 {
        '4'
    } else if d == 5 {
        '5'
    } else if d == 6 {
        '6'
    } else if d == 7 {
        '7'
    } else if d == 8 {
        '8'
    } else {
        '9'
    }
}

/// The decimal text of `n`, most significant digit first, without
/// leading zeros.
pub open spec fn dec_text(n: int) -> Seq<char>
    recommends
        n >= 0,
    decreases n,
{
    if n <= 9 {
        seq![digit_char(n)]
    } else {
        dec_text(n / 10).push(digit_char(n % 10))
    }
}

/// The `k`-th octet of `a`, most significant first.
pub open spec fn octet_of(a: u32, k: int) -> int
    recommends
        0 <= k < 4,
{
    if k == 0 {
        a as int / 0x0100_0000
    } else if k == 1 {
        (a as int / 0x0001_0000) % 256
    } else if k == 2 {
        (a as int / 0x0000_0100) % 256
    } else {
        a as int % 256
    }
}

/// The dotted-quad text of `a`.
pub open spec fn ipv4_text(a: u32) -> Seq<char> {
    dec_text(octet_of(a, 0)) + seq!['.'] + dec_text(octet_of(a, 1)) + seq!['.'] + dec_text(
        octet_of(a, 2),
    ) + seq!['.'] + dec_text(octet_of(a, 3))
}

fn digit_str(d: u8) -> (r: &'static str)
    requires
        d <= 9,
    ensures
        r@ == seq![digit_char(d as int)],
{
    proof {
        reveal_strlit("0");
        reveal_strlit("1");
        reveal_strlit("2");
        reveal_strlit("3");
        reveal_strlit("4");
        reveal_strlit("5");
        reveal_strlit("6");
        reveal_strlit("7");
        reveal_strlit("8");
        reveal_strlit("9");
        assert("0"@ =~= seq!['0']);
        assert("1"@ =~= seq!['1']);
        assert("2"@ =~= seq!['2']);
        assert("3"@ =~= seq!['3']);
        assert("4"@ =~= seq!['4']);
        assert("5"@ =~= seq!['5']);
        assert("6"@ =~= seq!['6']);
        assert("7"@ =~= seq!['7']);
        assert("8"@ =~= seq!['8']);
        assert("9"@ =~= seq!['9']);
    }
    match d {
        0 => "0",
        1 => "1",
        2 => "2",
        3 => "3",
        4 => "4",
        5 => "5",
        6 => "6",
        7 => "7",
        8 => "8",
        _ => "9",
    }
}

/// Append the decimal text of `n` to `s`.
fn append_dec_u8(s: &mut String, n: u8)
    ensures
        final(s)@ == old(s)@ + dec_text(n as int),
{
    if n >= 100 {
        s.append(digit_str(n / 100));
    }
    if n >= 10 {
        s.append(digit_str((n / 10) % 10));
    }
    s.append(digit_str(n % 10));
    proof {
        if n >= 100 {
            lemma_div_denominator(n as int, 10, 10);
            assert((n as int / 10) / 10 == n as int / 100);
            assert(dec_text(n as int / 100) == seq![digit_char(n as int / 100)]);
            assert(dec_text(n as int / 10) == dec_text(n as int / 100).push(
                digit_char((n as int / 10) % 10),
            ));
            assert(dec_text(n as int) == dec_text(n as int / 10).push(
                digit_char(n as int % 10),
            ));
            assert(final(s)@ =~= old(s)@ + dec_text(n as int));
        } else if n >= 10 {
            assert(dec_text(n as int / 10) == seq![digit_char(n as int / 10)]);
            assert((n as int / 10) % 10 == n as int / 10);
            assert(dec_text(n as int) == dec_text(n as int / 10).push(
                digit_char(n as int % 10),
            ));
            assert(final(s)@ =~= old(s)@ + dec_text(n as int));
        } else {
            assert(dec_text(n as int) == seq![digit_char(n as int)]);
            assert(final(s)@ =~= old(s)@ + dec_text(n as int));
        }
    }
}

/// Write `a` as a dotted quad.
pub fn format_ipv4(a: u32) -> (r: String)
    ensures
        r@ == ipv4_text(a),
{
    proof {
        assert(a / 0x0100_0000u32 < 256) by (bit_vector);
    }
    let o0 = (a / 0x0100_0000) as u8;
    let o1 = ((a / 0x0001_0000) % 256) as u8;
    let o2 = ((a / 0x0000_0100) % 256) as u8;
    let o3 = (a % 256) as u8;
    let mut s = String::new();
    append_dec_u8(&mut s, o0);
    s.append(".");
    append_dec_u8(&mut s, o1);
    s.append(".");
    append_dec_u8(&mut s, o2);
    s.append(".");
    append_dec_u8(&mut s, o3);
    proof {
        reveal_strlit(".");
        assert("."@ =~= seq!['.']);
        assert(s@ =~= ipv4_text(a));
    }
    s
}

/// Write `s` in its canonical CIDR form, network address then prefix
/// length.
pub fn format_cidr(s: &Subnet) -> (r: String)
    requires
        s.prefix <= 32,
    ensures
        r@ == ipv4_text(s.network) + seq!['/'] + dec_text(s.prefix as int),
{
    let mut out = format_ipv4(s.network);
    out.append("/");
    append_dec_u8(&mut out, s.prefix);
    proof {
        reveal_strlit("/");
        assert("/"@ =~= seq!['/']);
        assert(out@ =~= ipv4_text(s.network) + seq!['/'] + dec_text(s.prefix as int));
    }
    out
}

/// A malformed address or CIDR string.
#[derive(Debug)]
pub struct ParseError;

/// The value of a run of digits, most significant first.
pub open spec fn digits_val(s: Seq<char>) -> int
    decreases s.len(),
{
    if s.len() == 0 {
        0
    } else {
        digits_val(s.drop_last()) * 10 + digit_val(s.last())
    }
}

/// A canonical decimal octet: one to three digits, no leading zero,
/// value below 256.
pub open spec fn is_octet_text(s: Seq<char>) -> bool {
    &&& 1 <= s.len() <= 3
    &&& forall|j: int| 0 <= j < s.len() ==> is_digit_char(s[j])
    &&& (s.len() > 1 ==> s[0] != '0')
    &&& digits_val(s) < 256
}

/// `i`, `j` and `k` are the dots of a canonical dotted quad.
pub open spec fn is_ipv4_split(s: Seq<char>, i: int, j: int, k: int) -> bool {
    &&& 0 <= i < j < k < s.len()
    &&& s[i] == '.' && s[j] == '.' && s[k] == '.'
    &&& is_octet_text(s.subrange(0, i))
    &&& is_octet_text(s.subrange(i + 1, j))
    &&& is_octet_text(s.subrange(j + 1, k))
    &&& is_octet_text(s.subrange(k + 1, s.len() as int))
}

/// The address a canonical dotted quad denotes.
pub open spec fn ipv4_split_val(s: Seq<char>, i: int, j: int, k: int) -> int {
    digits_val(s.subrange(0, i)) * 0x0100_0000 + digits_val(s.subrange(i + 1, j)) * 0x0001_0000
        + digits_val(s.subrange(j + 1, k)) * 0x0000_0100 + digits_val(
        s.subrange(k + 1, s.len() as int),
    )
}

/// A canonical dotted quad.
pub open spec fn is_ipv4_text_valid(s: Seq<char>) -> bool {
    exists|i: int, j: int, k: int| is_ipv4_split(s, i, j, k)
}

fn is_digit(c: char) -> (b: bool)
    ensures
        b == is_digit_char(c),
{
    let u = c as u32;
    48 <= u && u <= 57
}

/// The end of the run of digits that starts at `start`: the first
/// later position that holds none, or the end of the string.
fn scan_digits(s: &str, start: usize) -> (end: usize)
    requires
        start <= s@.len(),
    ensures
        start <= end <= s@.len(),
        forall|t: int| start <= t < end ==> is_digit_char(s@[t]),
        end < s@.len() ==> !is_digit_char(s@[end as int]),
{
    let n = s.unicode_len();
    let mut i: usize = start;
    while i < n
        invariant
            start <= i <= n,
            n == s@.len(),
            forall|t: int| start <= t < i ==> is_digit_char(s@[t]),
        decreases n - i,
    {
        if !is_digit(s.get_char(i)) {
            return i;
        }
        i = i + 1;
    }
    i
}

/// Check one all-digit run as an octet and compute its value.
fn check_octet(s: &str, start: usize, end: usize) -> (r: Option<u8>)
    requires
        start <= end <= s@.len(),
        forall|t: int| start <= t < end ==> is_digit_char(s@[t]),
    ensures
        (r is Some) == is_octet_text(s@.subrange(start as int, end as int)),
        r matches Some(v) ==> v as int == digits_val(s@.subrange(start as int, end as int)),
{
    let ghost tok = s@.subrange(start as int, end as int);
    let len = end - start;
    if len == 0 || len > 3 {
        return None;
    }
    if len > 1 && s.get_char(start) == '0' {
        return None;
    }
    let mut v: u32 = 0;
    let mut i: usize = start;
    while i < end
        invariant
            start <= i <= end,
            end <= s@.len(),
            end - start <= 3,
            forall|t: int| start <= t < end ==> is_digit_char(s@[t]),
            v == digits_val(s@.subrange(start as int, i as int)),
            v < 1000,
        decreases end - i,
    {
        let c = s.get_char(i);
        proof {
            let pre = s@.subrange(start as int, i as int);
            let cur = s@.subrange(start as int, i + 1);
            assert(cur.drop_last() =~= pre);
            assert(cur.last() == s@[i as int]);
            lemma_digits_val_bound(pre);
        }
        v = v * 10 + ((c as u32) - 48);
        i = i + 1;
    }
    if v > 255 {
        proof {
            assert(!is_octet_text(tok));
        }
        return None;
    }
    proof {
        assert(tok.len() > 1 ==> tok[0] == s@[start as int]);
    }
    Some(v as u8)
}

/// At most `10^len - 1` for a run of `len` digits.
proof fn lemma_digits_val_bound(s: Seq<char>)
    requires
        forall|j: int| 0 <= j < s.len() ==> is_digit_char(s[j]),
    ensures
        0 <= digits_val(s),
        s.len() <= 3 ==> digits_val(s) < 1000,
        s.len() <= 2 ==> digits_val(s) < 100,
        s.len() <= 1 ==> digits_val(s) < 10,
    decreases s.len(),
{
    if s.len() > 0 {
        lemma_digits_val_bound(s.drop_last());
    }
}

/// The characters of a valid octet token are digits of the parent
/// sequence too.
proof fn lemma_token_digits(s: Seq<char>, lo: int, hi: int)
    requires
        0 <= lo <= hi <= s.len(),
        is_octet_text(s.subrange(lo, hi)),
    ensures
        forall|t: int| lo <= t < hi ==> is_digit_char(s[t]),
{
    assert forall|t: int| lo <= t < hi implies is_digit_char(s[t]) by {
        assert(s.subrange(lo, hi)[t - lo] == s[t]);
    }
}

/// A dot closes a digit run: the first non-digit at or after `start`
/// is the dot itself.
proof fn lemma_dot_at_scan_end(s: Seq<char>, start: int, dot: int, e: int)
    requires
        start <= dot < s.len(),
        s[dot] == '.',
        forall|t: int| start <= t < dot ==> is_digit_char(s[t]),
        start <= e <= s.len(),
        forall|t: int| start <= t < e ==> is_digit_char(s[t]),
        e < s.len() ==> !is_digit_char(s[e]),
    ensures
        dot == e,
{
    assert(('.' as u32) == 46);
    if dot < e {
        assert(is_digit_char(s[dot]));
        assert(false);
    }
    if e < dot {
        assert(is_digit_char(s[e]));
        assert(false);
    }
}

/// Read a dotted quad.  Exactly the canonical texts are accepted, and
/// the value read back is the one the text denotes.
pub fn parse_ipv4(s: &str) -> (r: Result<u32, ParseError>)
    ensures
        (r is Ok) == is_ipv4_text_valid(s@),
        forall|i: int, j: int, k: int|
            #[trigger] is_ipv4_split(s@, i, j, k) && r is Ok ==> r->Ok_0 as int == ipv4_split_val(
                s@,
                i,
                j,
                k,
            ),
{
    let n = s.unicode_len();
    let e0 = scan_digits(s, 0);
    let v0 = match check_octet(s, 0, e0) {
        Some(v) => v,
        None => {
            proof {
                assert forall|i: int, j: int, k: int| !is_ipv4_split(s@, i, j, k) by {
                    if is_ipv4_split(s@, i, j, k) {
                        lemma_token_digits(s@, 0, i);
                        lemma_dot_at_scan_end(s@, 0, i, e0 as int);
                    }
                }
            }
            return Err(ParseError);
        },
    };
    if e0 == n || s.get_char(e0) != '.' {
        proof {
            assert(('.' as u32) == 46);
            assert forall|i: int, j: int, k: int| !is_ipv4_split(s@, i, j, k) by {
                if is_ipv4_split(s@, i, j, k) {
                    lemma_token_digits(s@, 0, i);
                        lemma_dot_at_scan_end(s@, 0, i, e0 as int);
                }
            }
        }
        return Err(ParseError);
    }
    let p1 = e0 + 1;
    let e1 = scan_digits(s, p1);
    let v1 = match check_octet(s, p1, e1) {
        Some(v) => v,
        None => {
            proof {
                assert forall|i: int, j: int, k: int| !is_ipv4_split(s@, i, j, k) by {
                    if is_ipv4_split(s@, i, j, k) {
                        lemma_token_digits(s@, 0, i);
                        lemma_dot_at_scan_end(s@, 0, i, e0 as int);
                        lemma_token_digits(s@, i + 1, j);
                        lemma_dot_at_scan_end(s@, p1 as int, j, e1 as int);
                    }
                }
            }
            return Err(ParseError);
        },
    };
    if e1 == n || s.get_char(e1) != '.' {
        proof {
            assert(('.' as u32) == 46);
            assert forall|i: int, j: int, k: int| !is_ipv4_split(s@, i, j, k) by {
                if is_ipv4_split(s@, i, j, k) {
                    lemma_token_digits(s@, 0, i);
                        lemma_dot_at_scan_end(s@, 0, i, e0 as int);
                    lemma_token_digits(s@, i + 1, j);
                        lemma_dot_at_scan_end(s@, p1 as int, j, e1 as int);
                }
            }
        }
        return Err(ParseError);
    }
    let p2 = e1 + 1;
    let e2 = scan_digits(s, p2);
    let v2 = match check_octet(s, p2, e2) {
        Some(v) => v,
        None => {
            proof {
                assert forall|i: int, j: int, k: int| !is_ipv4_split(s@, i, j, k) by {
                    if is_ipv4_split(s@, i, j, k) {
                        lemma_token_digits(s@, 0, i);
                        lemma_dot_at_scan_end(s@, 0, i, e0 as int);
                        lemma_token_digits(s@, i + 1, j);
                        lemma_dot_at_scan_end(s@, p1 as int, j, e1 as int);
                        lemma_token_digits(s@, j + 1, k);
                        lemma_dot_at_scan_end(s@, p2 as int, k, e2 as int);
                    }
                }
            }
            return Err(ParseError);
        },
    };
    if e2 == n || s.get_char(e2) != '.' {
        proof {
            assert(('.' as u32) == 46);
            assert forall|i: int, j: int, k: int| !is_ipv4_split(s@, i, j, k) by {
                if is_ipv4_split(s@, i, j, k) {
                    lemma_token_digits(s@, 0, i);
                        lemma_dot_at_scan_end(s@, 0, i, e0 as int);
                    lemma_token_digits(s@, i + 1, j);
                        lemma_dot_at_scan_end(s@, p1 as int, j, e1 as int);
                    lemma_token_digits(s@, j + 1, k);
                        lemma_dot_at_scan_end(s@, p2 as int, k, e2 as int);
                }
            }
        }
        return Err(ParseError);
    }
    let p3 = e2 + 1;
    let e3 = scan_digits(s, p3);
    if e3 != n {
        proof {
            // inside the last octet a non-digit stands at e3
            assert forall|i: int, j: int, k: int| !is_ipv4_split(s@, i, j, k) by {
                if is_ipv4_split(s@, i, j, k) {
                    lemma_token_digits(s@, 0, i);
                        lemma_dot_at_scan_end(s@, 0, i, e0 as int);
                    lemma_token_digits(s@, i + 1, j);
                        lemma_dot_at_scan_end(s@, p1 as int, j, e1 as int);
                    lemma_token_digits(s@, j + 1, k);
                        lemma_dot_at_scan_end(s@, p2 as int, k, e2 as int);
                    let tok = s@.subrange(k + 1, s@.len() as int);
                    assert(tok[e3 - (k + 1)] == s@[e3 as int]);
                    assert(is_digit_char(s@[e3 as int]));
                }
            }
        }
        return Err(ParseError);
    }
    let v3 = match check_octet(s, p3, n) {
        Some(v) => v,
        None => {
            proof {
                assert forall|i: int, j: int, k: int| !is_ipv4_split(s@, i, j, k) by {
                    if is_ipv4_split(s@, i, j, k) {
                        lemma_token_digits(s@, 0, i);
                        lemma_dot_at_scan_end(s@, 0, i, e0 as int);
                        lemma_token_digits(s@, i + 1, j);
                        lemma_dot_at_scan_end(s@, p1 as int, j, e1 as int);
                        lemma_token_digits(s@, j + 1, k);
                        lemma_dot_at_scan_end(s@, p2 as int, k, e2 as int);
                    }
                }
            }
            return Err(ParseError);
        },
    };
    let a: u32 = (v0 as u32) * 0x0100_0000 + (v1 as u32) * 0x0001_0000 + (v2 as u32) * 0x0100 + (
    v3 as u32);
    proof {
        assert(is_ipv4_split(s@, e0 as int, e1 as int, e2 as int));
        assert forall|i: int, j: int, k: int| #[trigger]
            is_ipv4_split(s@, i, j, k) implies a as int == ipv4_split_val(s@, i, j, k) by {
            lemma_token_digits(s@, 0, i);
                        lemma_dot_at_scan_end(s@, 0, i, e0 as int);
            lemma_token_digits(s@, i + 1, j);
                        lemma_dot_at_scan_end(s@, p1 as int, j, e1 as int);
            lemma_token_digits(s@, j + 1, k);
                        lemma_dot_at_scan_end(s@, p2 as int, k, e2 as int);
        }
    }
    Ok(a)
}

/// A canonical prefix length: one or two digits, no leading zero,
/// at most 32.
pub open spec fn is_prefix_text(t: Seq<char>) -> bool {
    &&& 1 <= t.len() <= 2
    &&& forall|j: int| 0 <= j < t.len() ==> is_digit_char(t[j])
    &&& (t.len() > 1 ==> t[0] != '0')
    &&& digits_val(t) <= 32
}

/// `m` is the slash of a canonical CIDR text: a dotted quad before it,
/// a prefix length after it.
pub open spec fn is_cidr_split(s: Seq<char>, m: int) -> bool {
    &&& 0 <= m < s.len()
    &&& s[m] == '/'
    &&& is_ipv4_text_valid(s.subrange(0, m))
    &&& is_prefix_text(s.subrange(m + 1, s.len() as int))
}

/// A canonical CIDR text.
pub open spec fn is_cidr_text_valid(s: Seq<char>) -> bool {
    exists|m: int| is_cidr_split(s, m)
}

/// Every character of a dotted quad is a digit or a dot.
proof fn lemma_ipv4_split_chars(t: Seq<char>, i: int, j: int, k: int)
    requires
        is_ipv4_split(t, i, j, k),
    ensures
        forall|q: int| 0 <= q < t.len() ==> is_digit_char(t[q]) || t[q] == '.',
{
    assert forall|q: int| 0 <= q < t.len() implies is_digit_char(t[q]) || t[q] == '.' by {
        if q < i {
            assert(t.subrange(0, i)[q] == t[q]);
        } else if q > i && q < j {
            assert(t.subrange(i + 1, j)[q - (i + 1)] == t[q]);
        } else if q > j && q < k {
            assert(t.subrange(j + 1, k)[q - (j + 1)] == t[q]);
        } else if q > k {
            assert(t.subrange(k + 1, t.len() as int)[q - (k + 1)] == t[q]);
        }
    }
}

/// There is at most one slash a CIDR text can split at: the first one.
proof fn lemma_cidr_split_unique(s: Seq<char>, m_scan: int, m2: int)
    requires
        0 <= m_scan <= s.len(),
        forall|t: int| 0 <= t < m_scan ==> s[t] != '/',
        m_scan < s.len() ==> s[m_scan] == '/',
        is_cidr_split(s, m2),
    ensures
        m2 == m_scan,
{
    assert(('/' as u32) == 47);
    if m2 > m_scan {
        let before = s.subrange(0, m2);
        assert(is_ipv4_text_valid(before));
        let (i, j, k) = choose|i: int, j: int, k: int| is_ipv4_split(before, i, j, k);
        assert(is_ipv4_split(before, i, j, k));
        lemma_ipv4_split_chars(before, i, j, k);
        assert(before[m_scan] == s[m_scan]);
        assert(s[m_scan] == '/');
        assert(false);
    }
}

/// The index of the first slash of `s`, or its length.
fn find_slash(s: &str) -> (m: usize)
    ensures
        m <= s@.len(),
        m < s@.len() ==> s@[m as int] == '/',
        forall|t: int| 0 <= t < m ==> s@[t] != '/',
{
    let n = s.unicode_len();
    let mut i: usize = 0;
    while i < n
        invariant
            i <= n,
            n == s@.len(),
            forall|t: int| 0 <= t < i ==> s@[t] != '/',
        decreases n - i,
    {
        if s.get_char(i) == '/' {
            return i;
        }
        i = i + 1;
    }
    i
}

/// Check one all-digit run as a prefix length and compute its value.
fn check_prefix(s: &str, start: usize, end: usize) -> (r: Option<u8>)
    requires
        start <= end <= s@.len(),
        forall|t: int| start <= t < end ==> is_digit_char(s@[t]),
    ensures
        (r is Some) == is_prefix_text(s@.subrange(start as int, end as int)),
        r matches Some(v) ==> v as int == digits_val(s@.subrange(start as int, end as int)),
{
    let ghost tok = s@.subrange(start as int, end as int);
    let len = end - start;
    if len == 0 || len > 2 {
        return None;
    }
    if len > 1 && s.get_char(start) == '0' {
        return None;
    }
    let mut v: u32 = (s.get_char(start) as u32) - 48;
    proof {
        let one = s@.subrange(start as int, start + 1);
        assert(one.drop_last() =~= Seq::<char>::empty());
        assert(digits_val(Seq::<char>::empty()) == 0);
        assert(one.last() == s@[start as int]);
        assert(v == digits_val(one));
    }
    if len == 2 {
        v = v * 10 + ((s.get_char(start + 1) as u32) - 48);
        proof {
            assert(tok.drop_last() =~= s@.subrange(start as int, start + 1));
            assert(tok.last() == s@[start + 1]);
            assert(v == digits_val(tok));
        }
    }
    proof {
        assert(tok.len() > 1 ==> tok[0] == s@[start as int]);
    }
    if v > 32 {
        return None;
    }
    Some(v as u8)
}

/// Read a CIDR text and build the subnet it names: the address masked
/// down to its network address, with the prefix length read after the
/// slash.  Exactly the canonical texts are accepted.
pub fn parse_subnet(s: &str) -> (r: Result<Subnet, ParseError>)
    ensures
        (r is Ok) == is_cidr_text_valid(s@),
        r matches Ok(sub) ==> sub.wf(),
        forall|m: int|
            #[trigger] is_cidr_split(s@, m) && r is Ok ==> r->Ok_0.prefix as int == digits_val(
                s@.subrange(m + 1, s@.len() as int),
            ) && forall|i: int, j: int, k: int|
                #[trigger] is_ipv4_split(s@.subrange(0, m), i, j, k) ==> r->Ok_0.network == (
                ipv4_split_val(s@.subrange(0, m), i, j, k) as u32) & mask_of_prefix(
                    r->Ok_0.prefix,
                ),
{
    let n = s.unicode_len();
    let m = find_slash(s);
    if m == n {
        proof {
            assert forall|m2: int| !is_cidr_split(s@, m2) by {
                if is_cidr_split(s@, m2) {
                    lemma_cidr_split_unique(s@, m as int, m2);
                }
            }
        }
        return Err(ParseError);
    }
    let before = s.substring_char(0, m);
    let addr = match parse_ipv4(before) {
        Ok(a) => a,
        Err(_) => {
            proof {
                assert forall|m2: int| !is_cidr_split(s@, m2) by {
                    if is_cidr_split(s@, m2) {
                        lemma_cidr_split_unique(s@, m as int, m2);
                    }
                }
            }
            return Err(ParseError);
        },
    };
    let p = m + 1;
    let e = scan_digits(s, p);
    if e != n {
        proof {
            assert forall|m2: int| !is_cidr_split(s@, m2) by {
                if is_cidr_split(s@, m2) {
                    lemma_cidr_split_unique(s@, m as int, m2);
                    let tok = s@.subrange(m2 + 1, s@.len() as int);
                    assert(tok[e - (m2 + 1)] == s@[e as int]);
                    assert(is_digit_char(s@[e as int]));
                }
            }
        }
        return Err(ParseError);
    }
    let prefix = match check_prefix(s, p, n) {
        Some(v) => v,
        None => {
            proof {
                assert forall|m2: int| !is_cidr_split(s@, m2) by {
                    if is_cidr_split(s@, m2) {
                        lemma_cidr_split_unique(s@, m as int, m2);
                    }
                }
            }
            return Err(ParseError);
        },
    };
    let sub = compute_subnet(addr, prefix);
    proof {
        assert(is_cidr_split(s@, m as int));
        assert forall|m2: int| #[trigger] is_cidr_split(s@, m2) implies m2 == m as int by {
            lemma_cidr_split_unique(s@, m as int, m2);
        }
    }
    Ok(sub)
}

/// The decimal text of an octet value is a canonical octet token.
proof fn lemma_dec_text_octet(n: int)
    requires
        0 <= n <= 255,
    ensures
        is_octet_text(dec_text(n)),
        digits_val(dec_text(n)) == n,
        n <= 9 ==> dec_text(n).len() == 1,
        10 <= n <= 99 ==> dec_text(n).len() == 2,
        100 <= n ==> dec_text(n).len() == 3,
    decreases n,
{
    assert(('0' as u32) == 48);
    if n <= 9 {
        let tok = dec_text(n);
        assert(tok =~= seq![digit_char(n)]);
        assert((digit_char(n) as u32) == 48 + n);
        assert(digits_val(tok.drop_last()) == 0) by {
            assert(tok.drop_last() =~= Seq::<char>::empty());
        }
        assert(digits_val(tok) == n);
    } else {
        lemma_dec_text_octet(n / 10);
        let pre = dec_text(n / 10);
        let tok = dec_text(n);
        assert(tok == pre.push(digit_char(n % 10)));
        assert(tok.drop_last() =~= pre);
        assert(tok.last() == digit_char(n % 10));
        assert((digit_char(n % 10) as u32) == 48 + n % 10);
        assert(digits_val(tok) == digits_val(pre) * 10 + n % 10);
        assert(digits_val(pre) == n / 10);
        assert((n / 10) * 10 + n % 10 == n);
        // no leading zero: the head digit of a two- or three-digit
        // number is at least one
        assert(tok[0] == pre[0]);
        assert(pre.len() == 1 ==> pre[0] == digit_char(n / 10));
        if n <= 99 {
            assert(pre =~= seq![digit_char(n / 10)]);
            assert((digit_char(n / 10) as u32) == 48 + n / 10);
            assert(tok[0] != '0');
        }
        assert forall|q: int| 0 <= q < tok.len() implies is_digit_char(tok[q]) by {
            if q < tok.len() - 1 {
                assert(tok[q] == pre[q]);
            }
        }
    }
}

/// A dotted quad splits at one triple of dots only.
proof fn lemma_ipv4_split_unique(
    s: Seq<char>,
    i1: int,
    j1: int,
    k1: int,
    i2: int,
    j2: int,
    k2: int,
)
    requires
        is_ipv4_split(s, i1, j1, k1),
        is_ipv4_split(s, i2, j2, k2),
    ensures
        i1 == i2 && j1 == j2 && k1 == k2,
{
    assert(('.' as u32) == 46);
    if i1 < i2 {
        assert(s.subrange(0, i2)[i1] == s[i1]);
        assert(false);
    }
    if i2 < i1 {
        assert(s.subrange(0, i1)[i2] == s[i2]);
        assert(false);
    }
    if j1 < j2 {
        assert(s.subrange(i2 + 1, j2)[j1 - (i2 + 1)] == s[j1]);
        assert(false);
    }
    if j2 < j1 {
        assert(s.subrange(i1 + 1, j1)[j2 - (i1 + 1)] == s[j2]);
        assert(false);
    }
    if k1 < k2 {
        assert(s.subrange(j2 + 1, k2)[k1 - (j2 + 1)] == s[k1]);
        assert(false);
    }
    if k2 < k1 {
        assert(s.subrange(j1 + 1, k1)[k2 - (j1 + 1)] == s[k2]);
        assert(false);
    }
}

/// Law: the dotted-quad text of an address is canonical — it parses,
/// and every way of reading it yields the address it was written from.
/// Together with the contracts of `format_ipv4` and `parse_ipv4` this
/// gives the round trip: parsing a formatted address returns it.
pub proof fn lemma_ipv4_text_canonical(a: u32)
    ensures
        is_ipv4_text_valid(ipv4_text(a)),
        forall|i: int, j: int, k: int|
            #[trigger] is_ipv4_split(ipv4_text(a), i, j, k) ==> ipv4_split_val(
                ipv4_text(a),
                i,
                j,
                k,
            ) == a,
{
    let o0 = octet_of(a, 0);
    let o1 = octet_of(a, 1);
    let o2 = octet_of(a, 2);
    let o3 = octet_of(a, 3);
    assert(o0 <= 255) by (nonlinear_arith)
        requires
            o0 == a as int / 0x0100_0000 && a <= 0xFFFF_FFFF,
    ;
    lemma_dec_text_octet(o0);
    lemma_dec_text_octet(o1);
    lemma_dec_text_octet(o2);
    lemma_dec_text_octet(o3);
    let t = ipv4_text(a);
    let i = dec_text(o0).len() as int;
    let j = i + 1 + dec_text(o1).len() as int;
    let k = j + 1 + dec_text(o2).len() as int;
    assert(t.subrange(0, i) =~= dec_text(o0));
    assert(t[i] == '.');
    assert(t.subrange(i + 1, j) =~= dec_text(o1));
    assert(t[j] == '.');
    assert(t.subrange(j + 1, k) =~= dec_text(o2));
    assert(t[k] == '.');
    assert(t.subrange(k + 1, t.len() as int) =~= dec_text(o3));
    assert(is_ipv4_split(t, i, j, k));
    assert((a / 0x0100_0000u32) * 0x0100_0000 + ((a / 0x0001_0000u32) % 256) * 0x0001_0000 + ((a
        / 0x0000_0100u32) % 256) * 0x0000_0100 + (a % 256) == a) by (bit_vector);
    assert(o0 == (a / 0x0100_0000u32) as int);
    assert(o1 == ((a / 0x0001_0000u32) % 256) as int);
    assert(o2 == ((a / 0x0000_0100u32) % 256) as int);
    assert(o3 == (a % 256) as int);
    assert(ipv4_split_val(t, i, j, k) == a);
    assert forall|i2: int, j2: int, k2: int|
        #[trigger] is_ipv4_split(t, i2, j2, k2) implies ipv4_split_val(t, i2, j2, k2) == a by {
        lemma_ipv4_split_unique(t, i, j, k, i2, j2, k2);
    }
}

/// The canonical CIDR text of a block, parsed, names the block itself:
/// the text splits at its slash only, the prefix reads back, and the
/// quad before the slash reads back as the network address.  With the
/// contracts of `format_cidr` and `parse_subnet` this gives the round
/// trip for every well-formed subnet.
pub proof fn lemma_cidr_text_canonical(s: Subnet)
    requires
        s.wf(),
    ensures
        is_cidr_text_valid(ipv4_text(s.network) + seq!['/'] + dec_text(s.prefix as int)),
        forall|m: int|
            #[trigger] is_cidr_split(
                ipv4_text(s.network) + seq!['/'] + dec_text(s.prefix as int),
                m,
            ) ==> {
                let t = ipv4_text(s.network) + seq!['/'] + dec_text(s.prefix as int);
                digits_val(t.subrange(m + 1, t.len() as int)) == s.prefix && forall|
                    i: int,
                    j: int,
                    k: int,
                |
                    #[trigger] is_ipv4_split(t.subrange(0, m), i, j, k) ==> ipv4_split_val(
                        t.subrange(0, m),
                        i,
                        j,
                        k,
                    ) == s.network
            },
{
    let t = ipv4_text(s.network) + seq!['/'] + dec_text(s.prefix as int);
    let m = ipv4_text(s.network).len() as int;
    lemma_ipv4_text_canonical(s.network);
    lemma_dec_text_octet(s.prefix as int);
    assert(t.subrange(0, m) =~= ipv4_text(s.network));
    assert(t[m] == '/');
    let tail = t.subrange(m + 1, t.len() as int);
    assert(tail =~= dec_text(s.prefix as int));
    assert(is_prefix_text(tail)) by {
        assert(s.prefix <= 9 ==> tail.len() == 1) by {
            assert(s.prefix <= 9 ==> dec_text(s.prefix as int) =~= seq![
                digit_char(s.prefix as int),
            ]);
        }
        assert(s.prefix > 9 ==> tail.len() == 2) by {
            assert(s.prefix > 9 ==> dec_text(s.prefix as int / 10) == seq![
                digit_char(s.prefix as int / 10),
            ]);
            assert(s.prefix > 9 ==> dec_text(s.prefix as int) == dec_text(
                s.prefix as int / 10,
            ).push(digit_char(s.prefix as int % 10)));
        }
    }
    assert(is_cidr_split(t, m));
    assert(('/' as u32) == 47);
    assert forall|q: int| 0 <= q < m implies t[q] != '/' by {
        let (i, j, k) = choose|i: int, j: int, k: int|
            is_ipv4_split(ipv4_text(s.network), i, j, k);
        lemma_ipv4_split_chars(ipv4_text(s.network), i, j, k);
        assert(t[q] == ipv4_text(s.network)[q]);
    }
    assert forall|m2: int| #[trigger] is_cidr_split(t, m2) implies m2 == m by {
        lemma_cidr_split_unique(t, m, m2);
    }
    assert(digits_val(tail) == s.prefix);
}

/// Compute a block's canonical CIDR text from an address in text form
/// and a prefix length: the address is parsed, masked down to its
/// network address, and written back with the prefix.
pub fn calc_subnet(ip: &str, prefix: u8) -> (r: Result<String, ParseError>)
    requires
        prefix <= 32,
    ensures
        (r is Ok) == is_ipv4_text_valid(ip@),
        forall|i: int, j: int, k: int|
            #[trigger] is_ipv4_split(ip@, i, j, k) && r is Ok ==> r->Ok_0@ == ipv4_text(
                (ipv4_split_val(ip@, i, j, k) as u32) & mask_of_prefix(prefix),
            ) + seq!['/'] + dec_text(prefix as int),
{
    let addr = match parse_ipv4(ip) {
        Ok(a) => a,
        Err(e) => {
            return Err(e);
        },
    };
    let sub = compute_subnet(addr, prefix);
    Ok(format_cidr(&sub))
}

} // verus!
