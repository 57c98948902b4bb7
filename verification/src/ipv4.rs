//! IPv4 addresses as plain values, with a verified parser and formatter for
//! the dotted-quad text form (four decimal octets, no leading zeros).

use vstd::prelude::*;
use crate::text::{
    dots_before, lemma_dots_before_no_dots, lemma_split_dots_len, lemma_split_dots_single,
    lemma_split_dots_unfold, split_dots,
};

verus! {

/// An IPv4 address held as its four octets.
#[derive(Clone, Copy, Debug, PartialEq, Eq, Structural)]
pub struct Ipv4Address {
    pub a: u8,
    pub b: u8,
    pub c: u8,
    pub d: u8,
}

impl View for Ipv4Address {
    type V = Ipv4Address;

    open spec fn view(&self) -> Ipv4Address {
        *self
    }
}

/// A decimal digit character.
pub open spec fn is_digit(c: char) -> bool {
    48 <= c as u32 <= 57
}

/// Numeric value of a decimal digit character.
pub open spec fn digit_val(c: char) -> int {
    c as u32 - 48
}

/// The decimal digit character for a value in `0..=9`.
pub open spec fn digit_char(d: int) -> char {
    ((48 + d) as u8) as char
}

/// All characters of `s` are decimal digits.
pub open spec fn all_digits(s: Seq<char>) -> bool {
    forall|i: int| 0 <= i < s.len() ==> is_digit(#[trigger] s[i])
}

/// Value of a sequence of decimal digit characters, most significant first.
pub open spec fn octet_val(s: Seq<char>) -> int
    decreases s.len(),
{
    if s.len() == 0 {
        0
    } else {
        10 * octet_val(s.drop_last()) + digit_val(s.last())
    }
}

/// The text of one octet: one to three digits, no leading zero, value at
/// most 255.
pub open spec fn is_octet_text(s: Seq<char>) -> bool {
    &&& 1 <= s.len() <= 3
    &&& all_digits(s)
    &&& s.len() > 1 ==> s[0] != '0'
    &&& octet_val(s) <= 255
}

/// The value of a digit string is never negative.
pub proof fn lemma_octet_val_nonneg(s: Seq<char>)
    requires
        all_digits(s),
    ensures
        octet_val(s) >= 0,
    decreases s.len(),
{
    if s.len() > 0 {
        assert(all_digits(s.drop_last()));
        lemma_octet_val_nonneg(s.drop_last());
    }
}

/// The dotted-quad reading of `s`: `Some` exactly when `s` is four octet
/// texts joined by single dots.
pub open spec fn parse_ipv4_spec(s: Seq<char>) -> Option<Ipv4Address> {
    let parts = split_dots(s);
    if parts.len() == 4 && is_octet_text(parts[0]) && is_octet_text(parts[1]) && is_octet_text(
        parts[2],
    ) && is_octet_text(parts[3]) {
        Some(
            Ipv4Address {
                a: octet_val(parts[0]) as u8,
                b: octet_val(parts[1]) as u8,
                c: octet_val(parts[2]) as u8,
                d: octet_val(parts[3]) as u8,
            },
        )
    } else {
        None
    }
}

/// Canonical decimal digits of `n` (no leading zeros).
pub open spec fn dec_digits(n: int) -> Seq<char>
    decreases n,
{
    if n <= 9 {
        seq![digit_char(n)]
    } else {
        dec_digits(n / 10).push(digit_char(n % 10))
    }
}

/// The dotted-quad text of an address.
pub open spec fn ipv4_text_spec(ip: Ipv4Address) -> Seq<char> {
    dec_digits(ip.a as int) + seq!['.'] + dec_digits(ip.b as int) + seq!['.'] + dec_digits(
        ip.c as int,
    ) + seq!['.'] + dec_digits(ip.d as int)
}

proof fn lemma_octet_val_one(c: char)
    ensures
        octet_val(seq![c]) == digit_val(c),
{
    assert(seq![c].drop_last() =~= Seq::<char>::empty());
    assert(octet_val(Seq::<char>::empty()) == 0);
}

proof fn lemma_octet_val_two(c0: char, c1: char)
    ensures
        octet_val(seq![c0, c1]) == 10 * digit_val(c0) + digit_val(c1),
{
    assert(seq![c0, c1].drop_last() =~= seq![c0]);
    lemma_octet_val_one(c0);
}

proof fn lemma_octet_val_three(c0: char, c1: char, c2: char)
    ensures
        octet_val(seq![c0, c1, c2]) == 10 * (10 * digit_val(c0) + digit_val(c1)) + digit_val(c2),
{
    assert(seq![c0, c1, c2].drop_last() =~= seq![c0, c1]);
    lemma_octet_val_two(c0, c1);
}

proof fn lemma_digit_char_of_val(c: char)
    requires
        is_digit(c),
    ensures
        digit_char(digit_val(c)) == c,
{
}

/// Octet text is canonical: formatting the parsed value gives the text back.
pub proof fn lemma_dec_digits_of_octet(s: Seq<char>)
    requires
        is_octet_text(s),
    ensures
        dec_digits(octet_val(s)) == s,
{
    let v = octet_val(s);
    if s.len() == 1 {
        assert(s =~= seq![s[0]]);
        lemma_octet_val_one(s[0]);
        lemma_digit_char_of_val(s[0]);
        assert(v == digit_val(s[0]));
        assert(dec_digits(v) =~= s);
    } else if s.len() == 2 {
        let d0 = digit_val(s[0]);
        let d1 = digit_val(s[1]);
        assert(s =~= seq![s[0], s[1]]);
        lemma_octet_val_two(s[0], s[1]);
        lemma_digit_char_of_val(s[0]);
        lemma_digit_char_of_val(s[1]);
        assert(v == 10 * d0 + d1);
        assert(1 <= d0 <= 9 && 0 <= d1 <= 9);
        assert(v / 10 == d0 && v % 10 == d1) by (nonlinear_arith)
            requires
                v == 10 * d0 + d1,
                1 <= d0 <= 9,
                0 <= d1 <= 9,
        ;
        assert(dec_digits(d0) == seq![digit_char(d0)]);
        assert(dec_digits(v) == dec_digits(v / 10).push(digit_char(v % 10)));
        assert(dec_digits(v) =~= s);
    } else {
        let d0 = digit_val(s[0]);
        let d1 = digit_val(s[1]);
        let d2 = digit_val(s[2]);
        assert(s =~= seq![s[0], s[1], s[2]]);
        lemma_octet_val_three(s[0], s[1], s[2]);
        lemma_digit_char_of_val(s[0]);
        lemma_digit_char_of_val(s[1]);
        lemma_digit_char_of_val(s[2]);
        let w = 10 * d0 + d1;
        assert(v == 10 * w + d2);
        assert(1 <= d0 <= 9 && 0 <= d1 <= 9 && 0 <= d2 <= 9);
        assert(v / 10 == w && v % 10 == d2) by (nonlinear_arith)
            requires
                v == 10 * w + d2,
                10 <= w,
                w <= 99,
                0 <= d2 <= 9,
        ;
        assert(w / 10 == d0 && w % 10 == d1) by (nonlinear_arith)
            requires
                w == 10 * d0 + d1,
                1 <= d0 <= 9,
                0 <= d1 <= 9,
        ;
        assert(dec_digits(d0) == seq![digit_char(d0)]);
        assert(dec_digits(w) == dec_digits(w / 10).push(digit_char(w % 10)));
        assert(dec_digits(v) == dec_digits(v / 10).push(digit_char(v % 10)));
        assert(dec_digits(v) =~= s);
    }
}

/// Parsing is left inverse to the text: a string that parses as an address
/// is exactly that address's dotted-quad text.
pub proof fn lemma_parse_then_format(s: Seq<char>)
    requires
        parse_ipv4_spec(s) is Some,
    ensures
        ipv4_text_spec(parse_ipv4_spec(s)->0) == s,
{
    let parts = split_dots(s);
    let ip = parse_ipv4_spec(s)->0;
    lemma_octet_val_nonneg(parts[0]);
    lemma_octet_val_nonneg(parts[1]);
    lemma_octet_val_nonneg(parts[2]);
    lemma_octet_val_nonneg(parts[3]);
    lemma_dec_digits_of_octet(parts[0]);
    lemma_dec_digits_of_octet(parts[1]);
    lemma_dec_digits_of_octet(parts[2]);
    lemma_dec_digits_of_octet(parts[3]);
    crate::text::lemma_join_split_dots(s);
    let q2 = parts.drop_last();
    let q1 = q2.drop_last();
    let q0 = q1.drop_last();
    assert(q0 =~= seq![parts[0]]);
    assert(crate::text::join_dots(q0) == parts[0]);
    assert(crate::text::join_dots(q1) == crate::text::join_dots(q0) + seq!['.'] + parts[1]);
    assert(crate::text::join_dots(q2) == crate::text::join_dots(q1) + seq!['.'] + parts[2]);
    assert(crate::text::join_dots(parts) == crate::text::join_dots(q2) + seq!['.'] + parts[3]);
    assert(ip.a as int == octet_val(parts[0]));
    assert(ip.b as int == octet_val(parts[1]));
    assert(ip.c as int == octet_val(parts[2]));
    assert(ip.d as int == octet_val(parts[3]));
    assert(ipv4_text_spec(ip) =~= crate::text::join_dots(parts));
}

proof fn lemma_dec_digits_octet(v: int)
    requires
        0 <= v <= 255,
    ensures
        is_octet_text(dec_digits(v)),
        octet_val(dec_digits(v)) == v,
        forall|j: int| 0 <= j < dec_digits(v).len() ==> dec_digits(v)[j] != '.',
{
    if v <= 9 {
        assert(dec_digits(v) =~= seq![digit_char(v)]);
        lemma_octet_val_one(digit_char(v));
        assert(digit_char(v) as u32 == 48 + v);
        assert(all_digits(dec_digits(v)));
    } else if v <= 99 {
        assert(1 <= v / 10 <= 9 && 0 <= v % 10 <= 9 && v == 10 * (v / 10) + v % 10) by (nonlinear_arith)
            requires
                10 <= v <= 99,
        ;
        let t = v / 10;
        let u = v % 10;
        assert(dec_digits(t) == seq![digit_char(t)]);
        assert(dec_digits(v) == dec_digits(t).push(digit_char(u)));
        assert(dec_digits(v) =~= seq![digit_char(t), digit_char(u)]);
        lemma_octet_val_two(digit_char(t), digit_char(u));
        assert(digit_char(t) as u32 == 48 + t);
        assert(digit_char(u) as u32 == 48 + u);
        assert(all_digits(dec_digits(v)));
    } else {
        assert(1 <= v / 100 <= 2 && 0 <= v / 10 % 10 <= 9 && 0 <= v % 10 <= 9 && v == 10 * (10 * (v
            / 100) + v / 10 % 10) + v % 10 && v / 10 / 10 == v / 100 && 10 <= v / 10 <= 25)
            by (nonlinear_arith)
            requires
                100 <= v <= 255,
        ;
        let h = v / 100;
        let t = v / 10 % 10;
        let u = v % 10;
        assert(dec_digits(h) == seq![digit_char(h)]);
        assert(dec_digits(v / 10) == dec_digits(v / 10 / 10).push(digit_char(v / 10 % 10)));
        assert(dec_digits(v) == dec_digits(v / 10).push(digit_char(v % 10)));
        assert(dec_digits(v) =~= seq![digit_char(h), digit_char(t), digit_char(u)]);
        lemma_octet_val_three(digit_char(h), digit_char(t), digit_char(u));
        assert(digit_char(h) as u32 == 48 + h);
        assert(digit_char(t) as u32 == 48 + t);
        assert(digit_char(u) as u32 == 48 + u);
        assert(all_digits(dec_digits(v)));
    }
}

/// Formatting is right inverse to parsing: an address's dotted-quad text
/// always parses back to that address.
pub proof fn lemma_format_then_parse(ip: Ipv4Address)
    ensures
        parse_ipv4_spec(ipv4_text_spec(ip)) == Some(ip),
{
    let pa = dec_digits(ip.a as int);
    let pb = dec_digits(ip.b as int);
    let pc = dec_digits(ip.c as int);
    let pd = dec_digits(ip.d as int);
    lemma_dec_digits_octet(ip.a as int);
    lemma_dec_digits_octet(ip.b as int);
    lemma_dec_digits_octet(ip.c as int);
    lemma_dec_digits_octet(ip.d as int);
    let s = ipv4_text_spec(ip);
    let ia = pa.len() as int;
    let ib = ia + 1 + pb.len();
    let ic = ib + 1 + pc.len();
    assert(s =~= pa + seq!['.'] + pb + seq!['.'] + pc + seq!['.'] + pd);
    assert(s[ia] == '.');
    assert(s[ib] == '.');
    assert(s[ic] == '.');
    assert(forall|j: int| ic < j < s.len() ==> s[j] == pd[j - ic - 1]);
    lemma_split_dots_unfold(s, ic);
    let s2 = s.subrange(0, ic);
    assert(s2 =~= pa + seq!['.'] + pb + seq!['.'] + pc);
    assert(forall|j: int| ib < j < s2.len() ==> s2[j] == pc[j - ib - 1]);
    lemma_split_dots_unfold(s2, ib);
    let s1 = s2.subrange(0, ib);
    assert(s1 =~= pa + seq!['.'] + pb);
    assert(forall|j: int| ia < j < s1.len() ==> s1[j] == pb[j - ia - 1]);
    lemma_split_dots_unfold(s1, ia);
    assert(s1.subrange(0, ia) =~= pa);
    assert(forall|j: int| 0 <= j < ia ==> pa[j] != '.');
    lemma_split_dots_single(s1.subrange(0, ia));
    assert(s1.subrange(ia + 1, s1.len() as int) =~= pb);
    assert(s2.subrange(ib + 1, s2.len() as int) =~= pc);
    assert(s.subrange(ic + 1, s.len() as int) =~= pd);
    assert(split_dots(s) =~= seq![pa, pb, pc, pd]);
}

/// Read one octet text: `Some` exactly on a valid octet, with its value.
fn octet_of_str(s: &str) -> (r: Option<u8>)
    ensures
        match r {
            Some(v) => is_octet_text(s@) && octet_val(s@) == v as int,
            None => !is_octet_text(s@),
        },
{
    let n = s.unicode_len();
    if n == 0 || n > 3 {
        return None;
    }
    if n > 1 && s.get_char(0) == '0' {
        return None;
    }
    let mut val: u32 = 0;
    let mut i: usize = 0;
    while i < n
        invariant
            i <= n,
            n == s@.len(),
            1 <= n <= 3,
            all_digits(s@.subrange(0, i as int)),
            val == octet_val(s@.subrange(0, i as int)),
            val < 1000,
            i == 0 ==> val == 0,
            i == 1 ==> val <= 9,
            i == 2 ==> val <= 99,
        decreases n - i,
    {
        let c = s.get_char(i);
        let d = c as u32;
        if d < 48 || d > 57 {
            proof {
                assert(!is_digit(s@[i as int]));
                assert(!all_digits(s@));
            }
            return None;
        }
        proof {
            assert(s@.subrange(0, i + 1).drop_last() =~= s@.subrange(0, i as int));
            assert(s@.subrange(0, i + 1).last() == s@[i as int]);
        }
        val = val * 10 + (d - 48);
        i = i + 1;
    }
    proof {
        assert(s@.subrange(0, n as int) =~= s@);
    }
    if val > 255 {
        None
    } else {
        Some(val as u8)
    }
}

/// Parse a dotted-quad IPv4 address text.
pub fn parse_ipv4(s: &str) -> (r: Option<Ipv4Address>)
    ensures
        r == parse_ipv4_spec(s@),
{
    let n = s.unicode_len();
    let mut ndots: usize = 0;
    let mut d0: usize = 0;
    let mut d1: usize = 0;
    let mut d2: usize = 0;
    let mut i: usize = 0;
    while i < n
        invariant
            i <= n,
            n == s@.len(),
            ndots <= i,
            ndots as int == dots_before(s@, i as int),
            ndots >= 1 ==> d0 < i && s@[d0 as int] == '.' && dots_before(s@, d0 as int) == 0,
            ndots >= 2 ==> d0 < d1 < i && s@[d1 as int] == '.' && dots_before(s@, d1 as int) == 1,
            ndots >= 3 ==> d1 < d2 < i && s@[d2 as int] == '.' && dots_before(s@, d2 as int) == 2,
        decreases n - i,
    {
        let c = s.get_char(i);
        if c == '.' {
            if ndots == 0 {
                d0 = i;
            } else if ndots == 1 {
                d1 = i;
            } else if ndots == 2 {
                d2 = i;
            }
            ndots = ndots + 1;
        }
        i = i + 1;
    }
    proof {
        lemma_split_dots_len(s@);
    }
    if ndots != 3 {
        return None;
    }
    proof {
        lemma_dots_before_no_dots(s@, 0, d0 as int);
        lemma_dots_before_no_dots(s@, d0 + 1, d1 as int);
        lemma_dots_before_no_dots(s@, d1 + 1, d2 as int);
        lemma_dots_before_no_dots(s@, d2 + 1, n as int);
        let t2 = s@.subrange(0, d2 as int);
        let t1 = s@.subrange(0, d1 as int);
        lemma_split_dots_unfold(s@, d2 as int);
        assert(t2[d1 as int] == '.');
        assert(forall|j: int| d1 < j < t2.len() ==> t2[j] != '.');
        lemma_split_dots_unfold(t2, d1 as int);
        assert(t2.subrange(0, d1 as int) =~= t1);
        assert(t1[d0 as int] == '.');
        assert(forall|j: int| d0 < j < t1.len() ==> t1[j] != '.');
        lemma_split_dots_unfold(t1, d0 as int);
        assert(t1.subrange(0, d0 as int) =~= s@.subrange(0, d0 as int));
        assert(forall|j: int| 0 <= j < d0 ==> s@.subrange(0, d0 as int)[j] != '.');
        lemma_split_dots_single(s@.subrange(0, d0 as int));
        assert(t2.subrange(d1 + 1, t2.len() as int) =~= s@.subrange(d1 + 1, d2 as int));
        assert(t1.subrange(d0 + 1, t1.len() as int) =~= s@.subrange(d0 + 1, d1 as int));
        assert(split_dots(s@) =~= seq![
            s@.subrange(0, d0 as int),
            s@.subrange(d0 + 1, d1 as int),
            s@.subrange(d1 + 1, d2 as int),
            s@.subrange(d2 + 1, n as int),
        ]);
    }
    let p0 = s.substring_char(0, d0);
    let p1 = s.substring_char(d0 + 1, d1);
    let p2 = s.substring_char(d1 + 1, d2);
    let p3 = s.substring_char(d2 + 1, n);
    let o0 = match octet_of_str(p0) {
        Some(v) => v,
        None => return None,
    };
    let o1 = match octet_of_str(p1) {
        Some(v) => v,
        None => return None,
    };
    let o2 = match octet_of_str(p2) {
        Some(v) => v,
        None => return None,
    };
    let o3 = match octet_of_str(p3) {
        Some(v) => v,
        None => return None,
    };
    Some(Ipv4Address { a: o0, b: o1, c: o2, d: o3 })
}

/// A one-character string slice for a decimal digit value.
fn digit_str(d: u8) -> (r: &'static str)
    requires
        d < 10,
    ensures
        r@ =~= seq![digit_char(d as int)],
{
    let digits = "0123456789";
    proof {
        reveal_strlit("0123456789");
    }
    let r = digits.substring_char(d as usize, d as usize + 1);
    proof {
        assert(r@ =~= seq![digit_char(d as int)]);
    }
    r
}

/// Append the canonical decimal text of `v` to `out`.
fn push_decimal(out: &mut String, v: u8)
    ensures
        final(out)@ == old(out)@ + dec_digits(v as int),
{
    if v >= 100 {
        let h = v / 100;
        let t = (v / 10) % 10;
        let u = v % 10;
        proof {
            let m = v as int;
            assert(m / 100 <= 2 && m / 100 >= 1) by (nonlinear_arith)
                requires
                    100 <= m <= 255,
            ;
            assert(m / 10 / 10 == m / 100) by (nonlinear_arith);
            assert(m / 10 >= 10 && m / 10 <= 25) by (nonlinear_arith)
                requires
                    100 <= m <= 255,
            ;
            assert(dec_digits(m) == dec_digits(m / 10).push(digit_char(m % 10)));
            assert(dec_digits(m / 10) == dec_digits(m / 100).push(digit_char(m / 10 % 10)));
            assert(dec_digits(m / 100) == seq![digit_char(m / 100)]);
        }
        out.append(digit_str(h));
        out.append(digit_str(t));
        out.append(digit_str(u));
        proof {
            assert(final(out)@ =~= old(out)@ + dec_digits(v as int));
        }
    } else if v >= 10 {
        let t = v / 10;
        let u = v % 10;
        proof {
            let m = v as int;
            assert(m / 10 <= 9 && m / 10 >= 1) by (nonlinear_arith)
                requires
                    10 <= m <= 99,
            ;
            assert(dec_digits(m) == dec_digits(m / 10).push(digit_char(m % 10)));
            assert(dec_digits(m / 10) == seq![digit_char(m / 10)]);
        }
        out.append(digit_str(t));
        out.append(digit_str(u));
        proof {
            assert(final(out)@ =~= old(out)@ + dec_digits(v as int));
        }
    } else {
        out.append(digit_str(v));
        proof {
            assert(final(out)@ =~= old(out)@ + dec_digits(v as int));
        }
    }
}

/// Format an address as its dotted-quad text.
pub fn format_ipv4(ip: &Ipv4Address) -> (r: String)
    ensures
        r@ == ipv4_text_spec(*ip),
{
    let mut out = String::new();
    proof {
        reveal_strlit(".");
    }
    push_decimal(&mut out, ip.a);
    out.append(".");
    push_decimal(&mut out, ip.b);
    out.append(".");
    push_decimal(&mut out, ip.c);
    out.append(".");
    push_decimal(&mut out, ip.d);
    proof {
        assert("."@ =~= seq!['.']);
        assert(out@ =~= ipv4_text_spec(*ip));
    }
    out
}

} // verus!
