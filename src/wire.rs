//! Byte-level pieces of the wire format: literals, strings, integers and booleans.
use vstd::prelude::*;
use vstd::string::StringSliceAdditionalSpecFns;
use vstd::utf8::{decode_utf8, encode_utf8, encode_utf8_decode_utf8, encode_utf8_valid_utf8, valid_utf8};

use crate::external::string_from_utf8;

verus! {

/// The byte `,`.
pub const COMMA: u8 = 44;

/// The byte `{`.
pub const OPEN_BRACE: u8 = 123;

/// The byte `}`.
pub const CLOSE_BRACE: u8 = 125;

/// `b` holds `s` starting at `pos`.
pub open spec fn at(b: Seq<u8>, pos: int, s: Seq<u8>) -> bool {
    0 <= pos && pos + s.len() <= b.len() && b.subrange(pos, pos + s.len()) == s
}

pub broadcast proof fn lemma_at_concat(b: Seq<u8>, pos: int, s1: Seq<u8>, s2: Seq<u8>)
    ensures
        #[trigger] at(b, pos, s1 + s2) <==> at(b, pos, s1) && at(b, pos + s1.len(), s2),
{
    if at(b, pos, s1 + s2) {
        assert((s1 + s2).subrange(0, s1.len() as int) =~= s1);
        assert((s1 + s2).subrange(s1.len() as int, (s1.len() + s2.len()) as int) =~= s2);
        assert(b.subrange(pos, pos + s1.len()) =~= (s1 + s2).subrange(0, s1.len() as int));
        assert(b.subrange(pos + s1.len(), pos + s1.len() + s2.len()) =~= (s1 + s2).subrange(
            s1.len() as int,
            (s1.len() + s2.len()) as int,
        ));
    }
    if at(b, pos, s1) && at(b, pos + s1.len(), s2) {
        assert(b.subrange(pos, pos + s1.len() + s2.len()) =~= b.subrange(pos, pos + s1.len())
            + b.subrange(pos + s1.len(), pos + s1.len() + s2.len()));
        assert(b.subrange(pos, pos + (s1 + s2).len()) == s1 + s2);
    }
}

pub proof fn lemma_at_byte(b: Seq<u8>, pos: int, s: Seq<u8>, i: int)
    requires
        at(b, pos, s),
        0 <= i < s.len(),
    ensures
        b[pos + i] == s[i],
{
    assert(b.subrange(pos, pos + s.len())[i] == b[pos + i]);
}

/// Whether `b` holds `pat` at `pos`.
pub fn match_bytes(b: &Vec<u8>, pos: usize, pat: &[u8]) -> (r: bool)
    ensures
        r == at(b@, pos as int, pat@),
{
    if pos > b.len() || pat.len() > b.len() - pos {
        return false;
    }
    let mut i: usize = 0;
    while i < pat.len()
        invariant
            pos + pat@.len() <= b.len(),
            i <= pat@.len(),
            forall|k: int| 0 <= k < i ==> b@[pos + k] == pat@[k],
        decreases pat.len() - i,
    {
        if b[pos + i] != pat[i] {
            proof {
                if at(b@, pos as int, pat@) {
                    lemma_at_byte(b@, pos as int, pat@, i as int);
                }
            }
            return false;
        }
        i = i + 1;
    }
    assert(b@.subrange(pos as int, pos + pat@.len()) =~= pat@);
    true
}

pub open spec fn pat_true() -> Seq<u8> {
    seq![116u8, 114, 117, 101]
}

pub open spec fn pat_false() -> Seq<u8> {
    seq![102u8, 97, 108, 115, 101]
}

pub open spec fn enc_bool(x: bool) -> Seq<u8> {
    if x { pat_true() } else { pat_false() }
}

pub fn push_bool(out: &mut Vec<u8>, x: bool)
    ensures
        final(out)@ == old(out)@ + enc_bool(x),
{
    let pat: &[u8] = if x { &[116u8, 114, 117, 101] } else { &[102u8, 97, 108, 115, 101] };
    assert(pat@ == enc_bool(x));
    push_all(out, pat);
}

pub fn push_all(out: &mut Vec<u8>, s: &[u8])
    ensures
        final(out)@ == old(out)@ + s@,
{
    let ghost start = out@;
    let mut i: usize = 0;
    while i < s.len()
        invariant
            i <= s@.len(),
            out@ == start + s@.subrange(0, i as int),
        decreases s.len() - i,
    {
        out.push(s[i]);
        i = i + 1;
        assert(out@ =~= start + s@.subrange(0, i as int));
    }
    assert(s@.subrange(0, i as int) =~= s@);
}

pub fn parse_bool(b: &Vec<u8>, pos: usize) -> (r: Option<(bool, usize)>)
    ensures
        forall|x: bool| #[trigger] at(b@, pos as int, enc_bool(x)) ==> r == Some((x, (pos + enc_bool(x).len()) as usize)),
{
    let len = b.len();
    let t: [u8; 4] = [116u8, 114, 117, 101];
    let f: [u8; 5] = [102u8, 97, 108, 115, 101];
    assert(t@ == pat_true());
    assert(f@ == pat_false());
    if match_bytes(b, pos, &t) {
        proof {
            if at(b@, pos as int, enc_bool(false)) {
                lemma_at_byte(b@, pos as int, pat_true(), 0);
                lemma_at_byte(b@, pos as int, pat_false(), 0);
            }
        }
        Some((true, pos + 4))
    } else if match_bytes(b, pos, &f) {
        Some((false, pos + 5))
    } else {
        None
    }
}

/// How one byte of text is written inside quotes: a quote or a backslash is
/// preceded by a backslash.
pub open spec fn esc_byte(x: u8) -> Seq<u8> {
    if x == 34 || x == 92 {
        seq![92u8, x]
    } else {
        seq![x]
    }
}

pub open spec fn esc(u: Seq<u8>) -> Seq<u8>
    decreases u.len(),
{
    if u.len() == 0 {
        Seq::empty()
    } else {
        esc(u.drop_last()) + esc_byte(u.last())
    }
}

/// A text on the wire: its UTF-8 bytes, escaped, between quotes.
pub open spec fn enc_str(m: Seq<char>) -> Seq<u8> {
    seq![34u8] + esc(encode_utf8(m)) + seq![34u8]
}

proof fn lemma_esc_front(u: Seq<u8>)
    requires
        u.len() > 0,
    ensures
        esc(u) == esc_byte(u[0]) + esc(u.drop_first()),
    decreases u.len(),
{
    if u.len() == 1 {
        assert(u.drop_last() =~= Seq::<u8>::empty());
        assert(u.drop_first() =~= Seq::<u8>::empty());
        assert(esc(u) =~= esc_byte(u[0]) + esc(u.drop_first()));
    } else {
        lemma_esc_front(u.drop_last());
        assert(u.drop_last().drop_first() =~= u.drop_first().drop_last());
        assert(u.drop_first().last() == u.last());
        assert(esc(u) =~= esc_byte(u[0]) + esc(u.drop_first()));
    }
}

/// Appends `s` as a quoted, escaped text.
pub fn push_str(out: &mut Vec<u8>, s: &String)
    ensures
        final(out)@ == old(out)@ + enc_str(s@),
{
    let bytes = s.as_str().as_bytes();
    let ghost start = out@;
    out.push(34);
    let mut i: usize = 0;
    while i < bytes.len()
        invariant
            bytes@ == encode_utf8(s@),
            i <= bytes@.len(),
            out@ == start + seq![34u8] + esc(bytes@.subrange(0, i as int)),
        decreases bytes.len() - i,
    {
        let x = bytes[i];
        if x == 34 || x == 92 {
            out.push(92);
        }
        out.push(x);
        assert(bytes@.subrange(0, i as int + 1).drop_last() =~= bytes@.subrange(0, i as int));
        i = i + 1;
        assert(out@ =~= start + seq![34u8] + esc(bytes@.subrange(0, i as int)));
    }
    out.push(34);
    assert(bytes@.subrange(0, i as int) =~= bytes@);
    assert(out@ =~= start + enc_str(s@));
}

/// Reading the text `m` that starts at `pos`: `got` holds its first bytes, and the
/// encoding of the rest, closing quote included, starts at `j`.
pub open spec fn str_rest(b: Seq<u8>, pos: int, m: Seq<char>, got: Seq<u8>, j: int) -> bool {
    let v = encode_utf8(m);
    &&& got.len() <= v.len()
    &&& got == v.subrange(0, got.len() as int)
    &&& at(b, j, esc(v.subrange(got.len() as int, v.len() as int)) + seq![34u8])
    &&& j + esc(v.subrange(got.len() as int, v.len() as int)).len() + 1 == pos + enc_str(m).len()
}

#[verifier::rlimit(60)]
proof fn lemma_str_next(b: Seq<u8>, pos: int, m: Seq<char>, got: Seq<u8>, j: int)
    requires
        str_rest(b, pos, m, got, j),
    ensures
        got.len() == encode_utf8(m).len() ==> j < b.len() && b[j] == 34 && got == encode_utf8(m)
            && j + 1 == pos + enc_str(m).len(),
        got.len() < encode_utf8(m).len() ==> {
            let x = encode_utf8(m)[got.len() as int];
            &&& j < b.len()
            &&& b[j] != 34
            &&& (x == 34 || x == 92) ==> b[j] == 92 && j + 1 < b.len() && b[j + 1] == x
                && str_rest(b, pos, m, got.push(x), j + 2)
            &&& !(x == 34 || x == 92) ==> b[j] == x && str_rest(b, pos, m, got.push(x), j + 1)
        },
{
    broadcast use lemma_at_concat;

    let v = encode_utf8(m);
    let rest = v.subrange(got.len() as int, v.len() as int);
    if got.len() == v.len() {
        assert(rest =~= Seq::<u8>::empty());
        assert(esc(rest) =~= Seq::<u8>::empty());
        assert(esc(rest) + seq![34u8] =~= seq![34u8]);
        lemma_at_byte(b, j, seq![34u8], 0);
        assert(got =~= v);
    } else {
        let x = v[got.len() as int];
        lemma_esc_front(rest);
        assert(rest[0] == x);
        let tail = esc(rest.drop_first()) + seq![34u8];
        assert(esc(rest) + seq![34u8] =~= esc_byte(x) + tail);
        assert(at(b, j, esc_byte(x) + tail));
        lemma_at_byte(b, j, esc_byte(x), 0);
        let g2 = got.push(x);
        assert(rest.drop_first() =~= v.subrange(g2.len() as int, v.len() as int));
        assert(g2 =~= v.subrange(0, g2.len() as int));
        if x == 34 || x == 92 {
            lemma_at_byte(b, j, esc_byte(x), 1);
            assert(str_rest(b, pos, m, g2, j + 2));
        } else {
            assert(str_rest(b, pos, m, g2, j + 1));
        }
    }
}

/// Reads a quoted, escaped text at `pos`; returns it and the position after it.
pub fn parse_str(b: &Vec<u8>, pos: usize) -> (r: Option<(String, usize)>)
    ensures
        forall|m: Seq<char>| #[trigger] at(b@, pos as int, enc_str(m)) ==> (r matches Some((s, e)) && s@ == m
            && e == pos + enc_str(m).len()),
{
    let len = b.len();
    if pos >= len || b[pos] != 34 {
        proof {
            assert forall|m: Seq<char>| #[trigger] at(b@, pos as int, enc_str(m)) implies false by {
                lemma_at_byte(b@, pos as int, enc_str(m), 0);
            }
        }
        return None;
    }
    let mut got: Vec<u8> = Vec::new();
    let mut j: usize = pos + 1;
    proof {
        broadcast use lemma_at_concat;

        assert forall|m: Seq<char>| #[trigger] at(b@, pos as int, enc_str(m)) implies str_rest(b@, pos as int, m, got@, j as int) by {
            let v = encode_utf8(m);
            assert(v.subrange(0, v.len() as int) =~= v);
            assert(got@ =~= v.subrange(0, 0));
            assert(at(b@, pos as int, seq![34u8] + esc(v)));
            assert(at(b@, pos + 1, esc(v) + seq![34u8]));
        }
    }
    loop
        invariant
            len == b@.len(),
            pos < j <= len,
            forall|m: Seq<char>| #[trigger] at(b@, pos as int, enc_str(m)) ==> str_rest(b@, pos as int, m, got@, j as int),
        ensures
            j < len,
            j < b@.len() && b@[j as int] == 34,
            forall|m: Seq<char>| #[trigger] at(b@, pos as int, enc_str(m)) ==> str_rest(b@, pos as int, m, got@, j as int),
        decreases len - j,
    {
        let ghost g0 = got@;
        let ghost j0 = j as int;
        if j >= len {
            proof {
                assert forall|m: Seq<char>| #[trigger] at(b@, pos as int, enc_str(m)) implies false by {
                    lemma_str_next(b@, pos as int, m, g0, j0);
                }
            }
            return None;
        }
        let x = b[j];
        if x == 34 {
            break;
        }
        if x == 92 {
            if j + 1 >= len {
                proof {
                    assert forall|m: Seq<char>| #[trigger] at(b@, pos as int, enc_str(m)) implies false by {
                        lemma_str_next(b@, pos as int, m, g0, j0);
                    }
                }
                return None;
            }
            let y = b[j + 1];
            if y != 34 && y != 92 {
                proof {
                    assert forall|m: Seq<char>| #[trigger] at(b@, pos as int, enc_str(m)) implies false by {
                        lemma_str_next(b@, pos as int, m, g0, j0);
                    }
                }
                return None;
            }
            got.push(y);
            j = j + 2;
        } else {
            got.push(x);
            j = j + 1;
        }
        proof {
            assert forall|m: Seq<char>| #[trigger] at(b@, pos as int, enc_str(m)) implies str_rest(b@, pos as int, m, got@, j as int) by {
                lemma_str_next(b@, pos as int, m, g0, j0);
            }
        }
    }
    let ghost g = got@;
    proof {
        assert forall|m: Seq<char>| #[trigger] at(b@, pos as int, enc_str(m)) implies g == encode_utf8(m)
            && j + 1 == pos + enc_str(m).len() && valid_utf8(g) && decode_utf8(g) == m by {
            lemma_str_next(b@, pos as int, m, g, j as int);
            encode_utf8_valid_utf8(m);
            encode_utf8_decode_utf8(m);
        }
    }
    match string_from_utf8(got) {
        Some(s) => Some((s, j + 1)),
        None => None,
    }
}

/// The decimal digits of `n`, most significant first, with no leading zero.
pub open spec fn digits(n: nat) -> Seq<u8>
    decreases n,
{
    if n < 10 {
        seq![(48 + n) as u8]
    } else {
        digits(n / 10) + seq![(48 + n % 10) as u8]
    }
}

/// An integer on the wire: a minus sign for a negative value, then its digits.
pub open spec fn enc_int(n: int) -> Seq<u8> {
    if n < 0 {
        seq![45u8] + digits((-n) as nat)
    } else {
        digits(n as nat)
    }
}

pub open spec fn is_digit(x: u8) -> bool {
    48 <= x <= 57
}

/// The value of a run of digits.
pub open spec fn value(s: Seq<u8>) -> nat
    decreases s.len(),
{
    if s.len() == 0 {
        0
    } else {
        value(s.drop_last()) * 10 + (s.last() - 48) as nat
    }
}

pub open spec fn pow10(k: nat) -> nat
    decreases k,
{
    if k == 0 {
        1
    } else {
        10 * pow10((k - 1) as nat)
    }
}

/// The byte at `q` closes a number.
pub open spec fn ends_number(b: Seq<u8>, q: int) -> bool {
    0 <= q < b.len() && !is_digit(b[q])
}

/// The integers a number field can hold.
pub open spec fn in_wire_range(n: int) -> bool {
    -(u64::MAX as int) <= n <= u64::MAX as int
}

proof fn lemma_digits(n: nat)
    ensures
        digits(n).len() >= 1,
        forall|i: int| 0 <= i < digits(n).len() ==> is_digit(#[trigger] digits(n)[i]),
        value(digits(n)) == n,
    decreases n,
{
    let d = digits(n);
    if n >= 10 {
        lemma_digits(n / 10);
        assert(d.drop_last() =~= digits(n / 10));
        assert(forall|i: int| 0 <= i < d.len() - 1 ==> d[i] == digits(n / 10)[i]);
        assert(d.last() == (48 + n % 10) as u8);
        assert(value(d) == value(digits(n / 10)) * 10 + n % 10);
    } else {
        assert(d.drop_last() =~= Seq::<u8>::empty());
        assert(value(d) == value(d.drop_last()) * 10 + (d.last() - 48) as nat);
    }
}

proof fn lemma_digits_len(n: nat, k: nat)
    requires
        n < pow10(k),
        k >= 1,
    ensures
        digits(n).len() <= k,
    decreases n,
{
    if n >= 10 {
        assert(k >= 2) by {
            if k == 1 {
                assert(pow10(1) == 10 * pow10(0));
            }
        }
        let p = pow10((k - 1) as nat);
        assert(pow10(k) == 10 * p);
        assert(n / 10 < p) by (nonlinear_arith)
            requires
                n < 10 * p,
        ;
        lemma_digits_len(n / 10, (k - 1) as nat);
    }
}

proof fn lemma_pow10_mono(a: nat, c: nat)
    requires
        a <= c,
    ensures
        pow10(a) <= pow10(c),
    decreases c,
{
    if a < c {
        lemma_pow10_mono(a, (c - 1) as nat);
    }
}

proof fn lemma_pow10_20()
    ensures
        pow10(20) == 100000000000000000000,
        u64::MAX < pow10(20),
{
    reveal_with_fuel(pow10, 21);
}

fn push_digits(out: &mut Vec<u8>, n: u64)
    ensures
        final(out)@ == old(out)@ + digits(n as nat),
    decreases n,
{
    if n >= 10 {
        push_digits(out, n / 10);
    }
    out.push((48 + n % 10) as u8);
    assert(out@ =~= old(out)@ + digits(n as nat));
}

/// Appends a signed integer.
pub fn push_i64(out: &mut Vec<u8>, n: i64)
    ensures
        final(out)@ == old(out)@ + enc_int(n as int),
{
    if n < 0 {
        out.push(45);
        let mag: u64 = if n == i64::MIN {
            9223372036854775808u64
        } else {
            (-n) as u64
        };
        push_digits(out, mag);
        assert(out@ =~= old(out)@ + enc_int(n as int));
    } else {
        push_digits(out, n as u64);
    }
}

/// Appends an unsigned integer.
pub fn push_u64(out: &mut Vec<u8>, n: u64)
    ensures
        final(out)@ == old(out)@ + enc_int(n as int),
{
    push_digits(out, n);
}

/// `b` holds the number `n` at `pos`, closed by a byte that is not a digit.
pub open spec fn int_cond(b: Seq<u8>, pos: int, n: int) -> bool {
    &&& in_wire_range(n)
    &&& at(b, pos, enc_int(n))
    &&& ends_number(b, pos + enc_int(n).len())
}

pub open spec fn abs(n: int) -> nat {
    if n < 0 { (-n) as nat } else { n as nat }
}

proof fn lemma_int_start(b: Seq<u8>, pos: int, n: int)
    requires
        int_cond(b, pos, n),
    ensures
        pos < b.len(),
        (b[pos] == 45) <==> n < 0,
        at(b, pos + if n < 0 { 1int } else { 0 }, digits(abs(n))),
        b.len() > pos + (if n < 0 { 1int } else { 0 }) + digits(abs(n)).len(),
        !is_digit(b[pos + (if n < 0 { 1int } else { 0 }) + digits(abs(n)).len()]),
        digits(abs(n)).len() <= 20,
        forall|i: int| 0 <= i < digits(abs(n)).len() ==> is_digit(#[trigger] digits(abs(n))[i]),
        value(digits(abs(n))) == abs(n),
{
    broadcast use lemma_at_concat;

    lemma_digits(abs(n));
    lemma_pow10_20();
    lemma_digits_len(abs(n), 20);
    lemma_at_byte(b, pos, enc_int(n), 0);
    if n < 0 {
        assert(at(b, pos, seq![45u8] + digits(abs(n))));
    } else {
        assert(is_digit(digits(abs(n))[0]));
    }
}

/// Reads an integer at `pos`; returns it and the position after it.
pub fn parse_int(b: &Vec<u8>, pos: usize) -> (r: Option<(i128, usize)>)
    ensures
        forall|n: int| #![trigger at(b@, pos as int, enc_int(n))]
            int_cond(b@, pos as int, n) ==> r == Some((n as i128, (pos + enc_int(n).len()) as usize)),
{
    let len = b.len();
    if pos >= len {
        proof {
            assert forall|n: int| #![trigger at(b@, pos as int, enc_int(n))] int_cond(b@, pos as int, n) implies false by {
                lemma_int_start(b@, pos as int, n);
            }
        }
        return None;
    }
    let neg = b[pos] == 45;
    let start: usize = if neg { pos + 1 } else { pos };
    let mut j: usize = start;
    let mut acc: u128 = 0;
    proof {
        lemma_pow10_20();
        assert(b@.subrange(start as int, start as int) =~= Seq::<u8>::empty());
        assert forall|n: int| #![trigger at(b@, pos as int, enc_int(n))] int_cond(b@, pos as int, n) implies
            (neg <==> n < 0) && start == pos + (if n < 0 { 1int } else { 0 }) by {
            lemma_int_start(b@, pos as int, n);
        }
    }
    while j < len && 48 <= b[j] && b[j] <= 57
        invariant
            len == b@.len(),
            start <= j <= len,
            j - start <= 20,
            acc == value(b@.subrange(start as int, j as int)),
            acc < pow10((j - start) as nat),
            pow10(20) == 100000000000000000000,
            forall|n: int| #![trigger at(b@, pos as int, enc_int(n))] int_cond(b@, pos as int, n) ==> {
                &&& (neg <==> n < 0)
                &&& start == pos + (if n < 0 { 1int } else { 0 })
                &&& j - start <= digits(abs(n)).len()
            },
        decreases len - j,
    {
        let ghost j0 = j;
        proof {
            assert forall|n: int| #![trigger at(b@, pos as int, enc_int(n))] int_cond(b@, pos as int, n) implies
                j - start < digits(abs(n)).len() by {
                lemma_int_start(b@, pos as int, n);
            }
        }
        if j - start >= 20 {
            proof {
                assert forall|n: int| #![trigger at(b@, pos as int, enc_int(n))] int_cond(b@, pos as int, n) implies false by {
                    lemma_int_start(b@, pos as int, n);
                }
            }
            return None;
        }
        let d = b[j] - 48;
        proof {
            let c = (j - start) as nat;
            lemma_pow10_mono(c + 1, 20);
            assert(pow10(c + 1) == 10 * pow10(c));
            assert(acc * 10 + d < pow10(c + 1)) by (nonlinear_arith)
                requires
                    acc < pow10(c),
                    d <= 9,
                    pow10(c + 1) == 10 * pow10(c),
            ;
            assert(b@.subrange(start as int, j + 1).drop_last() =~= b@.subrange(start as int, j as int));
        }
        acc = acc * 10 + d as u128;
        j = j + 1;
    }
    if j == start {
        proof {
            assert forall|n: int| #![trigger at(b@, pos as int, enc_int(n))] int_cond(b@, pos as int, n) implies false by {
                lemma_int_start(b@, pos as int, n);
                let dd = digits(abs(n));
                lemma_at_byte(b@, start as int, dd, 0);
            }
        }
        return None;
    }
    proof {
        assert forall|n: int| #![trigger at(b@, pos as int, enc_int(n))] int_cond(b@, pos as int, n) implies
            acc == abs(n) && j == pos + enc_int(n).len() by {
            lemma_int_start(b@, pos as int, n);
            let dd = digits(abs(n));
            if j - start < dd.len() {
                lemma_at_byte(b@, start as int, dd, j - start);
            }
            assert(b@.subrange(start as int, j as int) == dd);
        }
    }
    proof {
        lemma_pow10_mono((j - start) as nat, 20);
    }
    let v: i128 = if neg { -(acc as i128) } else { acc as i128 };
    Some((v, j))
}

pub broadcast proof fn lemma_at_single(b: Seq<u8>, q: int, x: u8)
    ensures
        #[trigger] at(b, q, seq![x]) ==> 0 <= q < b.len() && b[q] == x,
{
    if at(b, q, seq![x]) {
        lemma_at_byte(b, q, seq![x], 0);
    }
}

/// The position after a value read by an earlier step, if it was read.
pub fn end_of<T>(r: &Option<(T, usize)>) -> (e: Option<usize>)
    ensures
        r is Some ==> e == Some((r->0).1),
        r is None ==> e is None,
{
    match r {
        Some((_, x)) => Some(*x),
        None => None,
    }
}

/// Reads the literal `lit` at `p`, if an earlier step succeeded there.
pub fn lit_at(b: &Vec<u8>, p: Option<usize>, lit: &str) -> (r: Option<usize>)
    ensures
        p is Some && at(b@, p->0 as int, lit.spec_bytes()) ==> r == Some((p->0 + lit.spec_bytes().len()) as usize),
{
    match p {
        None => None,
        Some(q) => {
            let bytes = lit.as_bytes();
            let len = b.len();
            if match_bytes(b, q, bytes) {
                Some(q + bytes.len())
            } else {
                None
            }
        },
    }
}

/// Reads the byte `x` at `p`, if an earlier step succeeded there.
pub fn byte_at(b: &Vec<u8>, p: Option<usize>, x: u8) -> (r: Option<usize>)
    ensures
        p is Some && at(b@, p->0 as int, seq![x]) ==> r == Some((p->0 + 1) as usize),
        p is Some && p->0 < b@.len() && b@[p->0 as int] == x ==> r == Some((p->0 + 1) as usize),
        r is Some ==> p is Some && (r->0) == p->0 + 1 && p->0 < b@.len() && b@[p->0 as int] == x,
{
    match p {
        None => None,
        Some(q) => {
            if q < b.len() && b[q] == x {
                Some(q + 1)
            } else {
                proof {
                    broadcast use lemma_at_single;

                }
                None
            }
        },
    }
}

/// Whether the byte at `p` is `x`, if an earlier step succeeded there.
pub fn peek_is(b: &Vec<u8>, p: Option<usize>, x: u8) -> (r: bool)
    ensures
        r <==> (p is Some && p->0 < b@.len() && b@[p->0 as int] == x),
{
    match p {
        None => false,
        Some(q) => q < b.len() && b[q] == x,
    }
}

pub fn str_at(b: &Vec<u8>, p: Option<usize>) -> (r: Option<(String, usize)>)
    ensures
        forall|m: Seq<char>| #![trigger enc_str(m)] p is Some && at(b@, p->0 as int, enc_str(m)) ==> (r matches Some((
            s,
            e,
        )) && s@ == m && e == p->0 + enc_str(m).len()),
{
    match p {
        None => None,
        Some(q) => parse_str(b, q),
    }
}

pub fn bool_at(b: &Vec<u8>, p: Option<usize>) -> (r: Option<(bool, usize)>)
    ensures
        forall|x: bool| #![trigger enc_bool(x)] p is Some && at(b@, p->0 as int, enc_bool(x)) ==> r == Some((x, (p->0 + enc_bool(x).len()) as usize)),
{
    match p {
        None => None,
        Some(q) => parse_bool(b, q),
    }
}

pub fn i64_at(b: &Vec<u8>, p: Option<usize>) -> (r: Option<(i64, usize)>)
    ensures
        forall|n: i64| #![trigger enc_int(n as int)] p is Some && at(b@, p->0 as int, enc_int(n as int)) && ends_number(b@, p->0 + enc_int(n as int).len())
            ==> r == Some((n, (p->0 + enc_int(n as int).len()) as usize)),
{
    match p {
        None => None,
        Some(q) => match parse_int(b, q) {
            Some((v, e)) => {
                if i64::MIN as i128 <= v && v <= i64::MAX as i128 {
                    Some((v as i64, e))
                } else {
                    None
                }
            },
            None => None,
        },
    }
}

pub fn u64_at(b: &Vec<u8>, p: Option<usize>) -> (r: Option<(u64, usize)>)
    ensures
        forall|n: u64| #![trigger enc_int(n as int)] p is Some && at(b@, p->0 as int, enc_int(n as int)) && ends_number(b@, p->0 + enc_int(n as int).len())
            ==> r == Some((n, (p->0 + enc_int(n as int).len()) as usize)),
{
    match p {
        None => None,
        Some(q) => match parse_int(b, q) {
            Some((v, e)) => {
                if 0 <= v && v <= u64::MAX as i128 {
                    Some((v as u64, e))
                } else {
                    None
                }
            },
            None => None,
        },
    }
}

/// Appends the UTF-8 bytes of the literal `lit`.
pub fn push_lit(out: &mut Vec<u8>, lit: &str)
    ensures
        final(out)@ == old(out)@ + lit.spec_bytes(),
{
    push_all(out, lit.as_bytes());
}

/// A field: its quoted key and colon, its value, and the byte that follows it
/// (a comma when more fields follow, a closing brace after the last).
pub open spec fn f_str(key: &str, m: Seq<char>, sep: u8) -> Seq<u8> {
    key.spec_bytes() + (enc_str(m) + seq![sep])
}

pub open spec fn f_bool(key: &str, x: bool, sep: u8) -> Seq<u8> {
    key.spec_bytes() + (enc_bool(x) + seq![sep])
}

pub open spec fn f_int(key: &str, n: int, sep: u8) -> Seq<u8> {
    key.spec_bytes() + (enc_int(n) + seq![sep])
}

pub open spec fn is_sep(x: u8) -> bool {
    x == COMMA || x == CLOSE_BRACE
}

pub fn push_field_str(out: &mut Vec<u8>, key: &str, s: &String, sep: u8)
    ensures
        final(out)@ == old(out)@ + f_str(key, s@, sep),
{
    let ghost start = out@;
    push_lit(out, key);
    push_str(out, s);
    out.push(sep);
    assert(out@ =~= start + f_str(key, s@, sep));
}

pub fn push_field_bool(out: &mut Vec<u8>, key: &str, x: bool, sep: u8)
    ensures
        final(out)@ == old(out)@ + f_bool(key, x, sep),
{
    let ghost start = out@;
    push_lit(out, key);
    push_bool(out, x);
    out.push(sep);
    assert(out@ =~= start + f_bool(key, x, sep));
}

pub fn push_field_i64(out: &mut Vec<u8>, key: &str, n: i64, sep: u8)
    ensures
        final(out)@ == old(out)@ + f_int(key, n as int, sep),
{
    let ghost start = out@;
    push_lit(out, key);
    push_i64(out, n);
    out.push(sep);
    assert(out@ =~= start + f_int(key, n as int, sep));
}

pub fn push_field_u64(out: &mut Vec<u8>, key: &str, n: u64, sep: u8)
    ensures
        final(out)@ == old(out)@ + f_int(key, n as int, sep),
{
    let ghost start = out@;
    push_lit(out, key);
    push_u64(out, n);
    out.push(sep);
    assert(out@ =~= start + f_int(key, n as int, sep));
}

pub fn field_str(b: &Vec<u8>, p: Option<usize>, key: &str, sep: u8) -> (r: Option<(String, usize)>)
    ensures
        forall|m: Seq<char>| #![trigger f_str(key, m, sep)] p is Some && at(b@, p->0 as int, f_str(key, m, sep)) ==> (r matches Some((
            s,
            e,
        )) && s@ == m && e == p->0 + f_str(key, m, sep).len()),
{
    broadcast use {lemma_at_concat, lemma_at_single};

    let len = b.len();
    let v = str_at(b, lit_at(b, p, key));
    let r = match v {
        Some((s, e)) => match byte_at(b, Some(e), sep) {
            Some(e2) => Some((s, e2)),
            None => None,
        },
        None => None,
    };
    proof {
        assert forall|m: Seq<char>| #![trigger f_str(key, m, sep)] p is Some && at(b@, p->0 as int, f_str(key, m, sep)) implies at(b@, p->0 as int, key.spec_bytes())
            && at(b@, p->0 + key.spec_bytes().len(), enc_str(m))
            && at(b@, p->0 + key.spec_bytes().len() + enc_str(m).len(), seq![sep]) by {
            let q = p->0 as int;
            assert(at(b@, q, key.spec_bytes() + (enc_str(m) + seq![sep])));
            assert(at(b@, q + key.spec_bytes().len(), enc_str(m) + seq![sep]));
        }
    }
    r
}

pub fn field_bool(b: &Vec<u8>, p: Option<usize>, key: &str, sep: u8) -> (r: Option<(bool, usize)>)
    ensures
        forall|x: bool| #![trigger f_bool(key, x, sep)] p is Some && at(b@, p->0 as int, f_bool(key, x, sep)) ==> r == Some((x, (p->0 + f_bool(key, x, sep).len()) as usize)),
{
    broadcast use {lemma_at_concat, lemma_at_single};

    let len = b.len();
    let v = bool_at(b, lit_at(b, p, key));
    let r = match v {
        Some((x, e)) => match byte_at(b, Some(e), sep) {
            Some(e2) => Some((x, e2)),
            None => None,
        },
        None => None,
    };
    proof {
        assert forall|m: bool| #![trigger f_bool(key, m, sep)] p is Some && at(b@, p->0 as int, f_bool(key, m, sep)) implies at(b@, p->0 as int, key.spec_bytes())
            && at(b@, p->0 + key.spec_bytes().len(), enc_bool(m))
            && at(b@, p->0 + key.spec_bytes().len() + enc_bool(m).len(), seq![sep]) by {
            let q = p->0 as int;
            assert(at(b@, q, key.spec_bytes() + (enc_bool(m) + seq![sep])));
            assert(at(b@, q + key.spec_bytes().len(), enc_bool(m) + seq![sep]));
        }
    }
    r
}

pub fn field_i64(b: &Vec<u8>, p: Option<usize>, key: &str, sep: u8) -> (r: Option<(i64, usize)>)
    requires
        is_sep(sep),
    ensures
        forall|n: i64| #![trigger f_int(key, n as int, sep)] p is Some && at(b@, p->0 as int, f_int(key, n as int, sep)) ==> r == Some((n, (p->0 + f_int(key, n as int, sep).len()) as usize)),
{
    broadcast use {lemma_at_concat, lemma_at_single};

    let len = b.len();
    let v = i64_at(b, lit_at(b, p, key));
    let r = match v {
        Some((x, e)) => match byte_at(b, Some(e), sep) {
            Some(e2) => Some((x, e2)),
            None => None,
        },
        None => None,
    };
    proof {
        assert forall|m: i64| #![trigger f_int(key, m as int, sep)] p is Some && at(b@, p->0 as int, f_int(key, m as int, sep)) implies at(b@, p->0 as int, key.spec_bytes())
            && at(b@, p->0 + key.spec_bytes().len(), enc_int(m as int))
            && at(b@, p->0 + key.spec_bytes().len() + enc_int(m as int).len(), seq![sep]) by {
            let q = p->0 as int;
            assert(at(b@, q, key.spec_bytes() + (enc_int(m as int) + seq![sep])));
            assert(at(b@, q + key.spec_bytes().len(), enc_int(m as int) + seq![sep]));
        }
    }
    r
}

pub fn field_u64(b: &Vec<u8>, p: Option<usize>, key: &str, sep: u8) -> (r: Option<(u64, usize)>)
    requires
        is_sep(sep),
    ensures
        forall|n: u64| #![trigger f_int(key, n as int, sep)] p is Some && at(b@, p->0 as int, f_int(key, n as int, sep)) ==> r == Some((n, (p->0 + f_int(key, n as int, sep).len()) as usize)),
{
    broadcast use {lemma_at_concat, lemma_at_single};

    let len = b.len();
    let v = u64_at(b, lit_at(b, p, key));
    let r = match v {
        Some((x, e)) => match byte_at(b, Some(e), sep) {
            Some(e2) => Some((x, e2)),
            None => None,
        },
        None => None,
    };
    proof {
        assert forall|m: u64| #![trigger f_int(key, m as int, sep)] p is Some && at(b@, p->0 as int, f_int(key, m as int, sep)) implies at(b@, p->0 as int, key.spec_bytes())
            && at(b@, p->0 + key.spec_bytes().len(), enc_int(m as int))
            && at(b@, p->0 + key.spec_bytes().len() + enc_int(m as int).len(), seq![sep]) by {
            let q = p->0 as int;
            assert(at(b@, q, key.spec_bytes() + (enc_int(m as int) + seq![sep])));
            assert(at(b@, q + key.spec_bytes().len(), enc_int(m as int) + seq![sep]));
        }
    }
    r
}

} // verus!
