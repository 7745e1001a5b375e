use vstd::prelude::*;

use crate::text::{chars_of, string_of, string_of_range};

verus! {

/// `'0'..='9'`.
pub open spec fn is_digit(c: char) -> bool {
    '0' <= c && c <= '9'
}

/// What `regex_syntax::is_word_character` says of `c`: whether it is a
/// Unicode word character (`\w`).
pub uninterp spec fn word_char(c: char) -> bool;

/// Relies on `regex_syntax::is_word_character`: whether `c` is a Unicode
/// word character (`\w`: alphabetic, decimal number, mark, connector
/// punctuation or join control).
#[verifier::external_body]
fn is_word_character(c: char) -> (r: bool)
    ensures
        r == word_char(c),
{
    regex_syntax::is_word_character(c)
}

/// A character of an extension: a Unicode word character. A `.` is none,
/// which the second conjunct states outright, as the reading of a name
/// rests on it.
pub open spec fn is_word_char(c: char) -> bool {
    word_char(c) && c != '.'
}

pub open spec fn digit_value(c: char) -> nat {
    ((c as int) - ('0' as int)) as nat
}

/// The number written by the decimal digits `d` (leading zeros allowed).
pub open spec fn digits_value(d: Seq<char>) -> nat
    decreases d.len(),
{
    if d.len() == 0 {
        0
    } else {
        digits_value(d.drop_last()) * 10 + digit_value(d.last())
    }
}

pub open spec fn all_digits(d: Seq<char>) -> bool {
    forall|j: int| 0 <= j < d.len() ==> is_digit(#[trigger] d[j])
}

/// A valid extension of a structured name: one or more word characters.
pub open spec fn is_ext(e: Seq<char>) -> bool {
    e.len() > 0 && forall|j: int| 0 <= j < e.len() ==> is_word_char(#[trigger] e[j])
}

/// Position of the last `c` in `s`, or -1 when `s` holds none.
pub open spec fn last_index(s: Seq<char>, c: char) -> int
    decreases s.len(),
{
    if s.len() == 0 {
        -1
    } else if s.last() == c {
        s.len() - 1
    } else {
        last_index(s.drop_last(), c)
    }
}

/// What follows the last `.` of a file name; empty when there is no `.`.
pub open spec fn ext_of(name: Seq<char>) -> Seq<char> {
    let d = last_index(name, '.');
    if d < 0 {
        Seq::empty()
    } else {
        name.subrange(d + 1, name.len() as int)
    }
}

/// `name` is `prefix _ digits . ext`, with a non-empty prefix on one line,
/// one or more ASCII decimal digits and an extension of word characters.
pub open spec fn has_form(name: Seq<char>, p: Seq<char>, d: Seq<char>, e: Seq<char>) -> bool {
    &&& name == p + seq!['_'] + d + seq!['.'] + e
    &&& p.len() > 0
    &&& !p.contains('\n')
    &&& d.len() > 0
    &&& all_digits(d)
    &&& is_ext(e)
}

/// `name` is the structured name with these prefix, index and extension.
pub open spec fn parses_as(name: Seq<char>, p: Seq<char>, i: nat, e: Seq<char>) -> bool {
    exists|d: Seq<char>| has_form(name, p, d, e) && digits_value(d) == i
}

/// The structured reading of `name`, when it has one whose index fits a `u32`.
pub open spec fn parse_spec(name: Seq<char>) -> Option<(Seq<char>, u32, Seq<char>)> {
    if exists|p: Seq<char>, i: u32, e: Seq<char>| parses_as(name, p, i as nat, e) {
        let (p, i, e) = choose|p: Seq<char>, i: u32, e: Seq<char>| parses_as(name, p, i as nat, e);
        Some((p, i, e))
    } else {
        None
    }
}

/// The decimal digit for `k` in `0..10`.
pub open spec fn digit_char(k: int) -> char {
    if k == 0 { '0' }
    else if k == 1 { '1' }
    else if k == 2 { '2' }
    else if k == 3 { '3' }
    else if k == 4 { '4' }
    else if k == 5 { '5' }
    else if k == 6 { '6' }
    else if k == 7 { '7' }
    else if k == 8 { '8' }
    else { '9' }
}

/// `i` written with four digits, zero-padded.
pub open spec fn pad4(i: int) -> Seq<char> {
    seq![digit_char(i / 1000), digit_char((i / 100) % 10), digit_char((i / 10) % 10), digit_char(i % 10)]
}

/// `n` in decimal, without leading zeros.
pub open spec fn decimal(n: nat) -> Seq<char>
    decreases n,
{
    if n < 10 {
        seq![digit_char(n as int)]
    } else {
        decimal(n / 10).push(digit_char((n % 10) as int))
    }
}

/// The index as a name writes it: at least four digits, zero-padded; a
/// larger number in full.
pub open spec fn index_text(i: int) -> Seq<char> {
    if 0 <= i <= 9999 {
        pad4(i)
    } else {
        decimal(i as nat)
    }
}

/// `prefix_NNNN.ext`, or `NNNN.ext` when the prefix is empty.
pub open spec fn canonical_name(prefix: Seq<char>, i: int, ext: Seq<char>) -> Seq<char> {
    if prefix.len() == 0 {
        index_text(i) + seq!['.'] + ext
    } else {
        prefix + seq!['_'] + index_text(i) + seq!['.'] + ext
    }
}

/// The three parts of a structured file name `prefix_index.ext`.
pub struct StructuredName {
    pub prefix: String,
    pub index: u32,
    pub ext: String,
}

/// Two readings of one name as `prefix _ digits . ext` are the same reading.
proof fn lemma_form_unique(
    n: Seq<char>,
    pa: Seq<char>, d1: Seq<char>, e1: Seq<char>,
    pb: Seq<char>, d2: Seq<char>, e2: Seq<char>,
)
    requires
        has_form(n, pa, d1, e1),
        has_form(n, pb, d2, e2),
    ensures
        pa == pb,
        d1 == d2,
        e1 == e2,
{
    let dot1: int = pa.len() + 1 + d1.len() as int;
    let dot2: int = pb.len() + 1 + d2.len() as int;
    let a1 = pa + seq!['_'] + d1;
    let a2 = pb + seq!['_'] + d2;
    assert((a1 + seq!['.'])[dot1] == '.');
    assert((a2 + seq!['.'])[dot2] == '.');
    assert(n == (a1 + seq!['.']) + e1);
    assert(n == (a2 + seq!['.']) + e2);
    assert(n.len() == dot1 + 1 + e1.len());
    assert(n.len() == dot2 + 1 + e2.len());
    assert(n[dot1] == '.');
    assert(n[dot2] == '.');
    if dot1 < dot2 {
        assert(n[dot2] == e1[dot2 - dot1 - 1]);
        assert(is_word_char(e1[dot2 - dot1 - 1]));
    } else if dot2 < dot1 {
        assert(n[dot1] == e2[dot1 - dot2 - 1]);
        assert(is_word_char(e2[dot1 - dot2 - 1]));
    }
    let u1 = pa.len() as int;
    let u2 = pb.len() as int;
    assert((pa + seq!['_'])[u1] == '_');
    assert((pb + seq!['_'])[u2] == '_');
    assert(a1[u1] == '_');
    assert(a2[u2] == '_');
    assert(n[u1] == '_');
    assert(n[u2] == '_');
    assert(dot1 == dot2);
    if u1 < u2 {
        assert(a1 == (pa + seq!['_']) + d1);
        assert(n[u2] == d1[u2 - u1 - 1]);
        assert(is_digit(d1[u2 - u1 - 1]));
    } else if u2 < u1 {
        assert(a2 == (pb + seq!['_']) + d2);
        assert(n[u1] == d2[u1 - u2 - 1]);
        assert(is_digit(d2[u1 - u2 - 1]));
    }
    assert(pa =~= n.subrange(0, u1));
    assert(pb =~= n.subrange(0, u1));
    assert(d1 =~= n.subrange(u1 + 1, dot1));
    assert(d2 =~= n.subrange(u1 + 1, dot1));
    assert(e1 =~= n.subrange(dot1 + 1, n.len() as int));
    assert(e2 =~= n.subrange(dot1 + 1, n.len() as int));
}

/// A name has at most one structured reading.
pub proof fn lemma_parses_unique(n: Seq<char>, pa: Seq<char>, i1: nat, e1: Seq<char>, pb: Seq<char>, i2: nat, e2: Seq<char>)
    requires
        parses_as(n, pa, i1, e1),
        parses_as(n, pb, i2, e2),
    ensures
        pa == pb,
        i1 == i2,
        e1 == e2,
{
    let d1 = choose|d: Seq<char>| has_form(n, pa, d, e1) && digits_value(d) == i1;
    let d2 = choose|d: Seq<char>| has_form(n, pb, d, e2) && digits_value(d) == i2;
    lemma_form_unique(n, pa, d1, e1, pb, d2, e2);
}

/// One past the position of the last `c` in `cs`; 0 when `cs` holds none.
fn after_last(cs: &Vec<char>, c: char) -> (r: usize)
    ensures
        r as int == last_index(cs@, c) + 1,
        r <= cs@.len(),
        r > 0 ==> cs@[r - 1] == c,
        forall|j: int| r <= j < cs@.len() ==> cs@[j] != c,
{
    let mut i: usize = cs.len();
    assert(cs@.subrange(0, i as int) =~= cs@);
    while i > 0 && cs[i - 1] != c
        invariant
            i <= cs@.len(),
            last_index(cs@, c) == last_index(cs@.subrange(0, i as int), c),
            forall|j: int| i <= j < cs@.len() ==> cs@[j] != c,
        decreases i,
    {
        assert(cs@.subrange(0, i as int).drop_last() =~= cs@.subrange(0, i - 1));
        i = i - 1;
    }
    i
}

/// The extension of a file name: what follows its last `.`, or the empty
/// string when it has none. Case is kept.
pub fn _get_file_extension(name: &str) -> (r: String)
    ensures
        r@ == ext_of(name@),
{
    let cs = chars_of(name);
    let d = after_last(&cs, '.');
    if d == 0 {
        String::new()
    } else {
        string_of_range(&cs, d, cs.len())
    }
}

/// The digit character for `k < 10`.
fn digit_char_of(k: u32) -> (r: char)
    requires
        k < 10,
    ensures
        r == digit_char(k as int),
{
    if k == 0 { '0' }
    else if k == 1 { '1' }
    else if k == 2 { '2' }
    else if k == 3 { '3' }
    else if k == 4 { '4' }
    else if k == 5 { '5' }
    else if k == 6 { '6' }
    else if k == 7 { '7' }
    else if k == 8 { '8' }
    else { '9' }
}

/// Appends the characters of `s` to `out`.
fn push_str_chars(out: &mut Vec<char>, s: &str)
    ensures
        final(out)@ == old(out)@ + s@,
{
    let cs = chars_of(s);
    let mut i: usize = 0;
    while i < cs.len()
        invariant
            i <= cs@.len(),
            cs@ == s@,
            out@ == old(out)@ + cs@.subrange(0, i as int),
        decreases cs@.len() - i,
    {
        out.push(cs[i]);
        i = i + 1;
        assert(out@ =~= old(out)@ + cs@.subrange(0, i as int));
    }
    assert(cs@.subrange(0, i as int) =~= cs@);
}

/// Appends the decimal digits of `n`, without leading zeros.
fn push_decimal(out: &mut Vec<char>, n: u32)
    ensures
        final(out)@ == old(out)@ + decimal(n as nat),
    decreases n,
{
    if n >= 10 {
        push_decimal(out, n / 10);
    }
    out.push(digit_char_of(n % 10));
    assert(final(out)@ =~= old(out)@ + decimal(n as nat));
}

/// The canonical file name `prefix_NNNN.ext`, the index zero-padded to four
/// digits (a larger index written in full); `NNNN.ext` when the prefix is
/// empty.
pub fn format_canonical(prefix: &str, index: u32, ext: &str) -> (r: String)
    ensures
        r@ == canonical_name(prefix@, index as int, ext@),
{
    let mut out: Vec<char> = Vec::new();
    push_str_chars(&mut out, prefix);
    if out.len() > 0 {
        out.push('_');
    }
    if index <= 9999 {
        out.push(digit_char_of(index / 1000));
        out.push(digit_char_of((index / 100) % 10));
        out.push(digit_char_of((index / 10) % 10));
        out.push(digit_char_of(index % 10));
    } else {
        push_decimal(&mut out, index);
    }
    out.push('.');
    push_str_chars(&mut out, ext);
    assert(out@ =~= canonical_name(prefix@, index as int, ext@));
    string_of(out.as_slice())
}

fn is_digit_char(c: char) -> (r: bool)
    ensures
        r == is_digit(c),
{
    '0' <= c && c <= '9'
}

fn is_word_char_exec(c: char) -> (r: bool)
    ensures
        r == is_word_char(c),
{
    c != '.' && is_word_character(c)
}

/// The value of the digits `cs[lo..hi]`, or `u32::MAX + 1` when it is larger.
fn capped_value(cs: &Vec<char>, lo: usize, hi: usize) -> (r: u64)
    requires
        lo <= hi <= cs@.len(),
        all_digits(cs@.subrange(lo as int, hi as int)),
    ensures
        r as int == if digits_value(cs@.subrange(lo as int, hi as int)) > u32::MAX {
            u32::MAX + 1
        } else {
            digits_value(cs@.subrange(lo as int, hi as int)) as int
        },
{
    let mut v: u64 = 0;
    let mut j: usize = lo;
    assert(cs@.subrange(lo as int, lo as int) =~= Seq::<char>::empty());
    while j < hi
        invariant
            lo <= j <= hi <= cs@.len(),
            all_digits(cs@.subrange(lo as int, hi as int)),
            v as int == if digits_value(cs@.subrange(lo as int, j as int)) > u32::MAX {
                u32::MAX + 1
            } else {
                digits_value(cs@.subrange(lo as int, j as int)) as int
            },
        decreases hi - j,
    {
        let c = cs[j];
        assert(cs@.subrange(lo as int, hi as int)[j - lo] == c);
        let dv: u64 = (c as u32 - '0' as u32) as u64;
        assert(cs@.subrange(lo as int, j + 1).drop_last() =~= cs@.subrange(lo as int, j as int));
        if v > 0xffff_ffff {
            v = 0x1_0000_0000;
        } else {
            v = v * 10 + dv;
            if v > 0xffff_ffff {
                v = 0x1_0000_0000;
            }
        }
        j = j + 1;
    }
    v
}

/// Reads `name` as `prefix_index.ext`: the extension is the word characters
/// after the last `.`, the index the decimal digits just before it, and the
/// prefix everything before the `_` that precedes those digits. Extension
/// characters are Unicode word characters (`\w`); index digits are ASCII
/// `0-9`, the only digits a `u32` is read from; the prefix must not hold a
/// line break. `None` when the name has no such reading, or when its index
/// does not fit a `u32`.
pub fn parse_structured(name: &str) -> (r: Option<StructuredName>)
    ensures
        match r {
            Some(sn) => parses_as(name@, sn.prefix@, sn.index as nat, sn.ext@),
            None => forall|p: Seq<char>, i: nat, e: Seq<char>|
                parses_as(name@, p, i, e) ==> i > u32::MAX,
        },
        r is Some <==> parse_spec(name@) is Some,
        r is Some ==> parse_spec(name@) == Some((r->0.prefix@, r->0.index, r->0.ext@)),
{
    let cs = chars_of(name);
    let n = cs.len();
    let ghost ns = cs@;
    let after = after_last(&cs, '.');
    let result = if after == 0 || after == n {
        proof {
            assert forall|p: Seq<char>, i: nat, e: Seq<char>| parses_as(ns, p, i, e) implies i > u32::MAX by {
                let d = choose|d: Seq<char>| has_form(ns, p, d, e) && digits_value(d) == i;
                lemma_dot_position(ns, p, d, e, after as int);
            }
        }
        None
    } else {
        let dp = after - 1;
        let mut ok = true;
        let mut j: usize = after;
        while j < n
            invariant
                after <= j <= n,
                n == cs@.len(),
                ok == forall|t: int| after <= t < j ==> is_word_char(#[trigger] cs@[t]),
            decreases n - j,
        {
            if !is_word_char_exec(cs[j]) {
                ok = false;
            }
            j = j + 1;
        }
        let mut k: usize = dp;
        while k > 0 && is_digit_char(cs[k - 1])
            invariant
                k <= dp < n,
                n == cs@.len(),
                forall|t: int| k <= t < dp ==> is_digit(#[trigger] cs@[t]),
            decreases k,
        {
            k = k - 1;
        }
        let pre_end: usize = if k > 0 { k - 1 } else { 0 };
        let mut nl = false;
        let mut t: usize = 0;
        while t < pre_end
            invariant
                t <= pre_end <= n,
                n == cs@.len(),
                nl == exists|u: int| 0 <= u < t && cs@[u] == '\n',
            decreases pre_end - t,
        {
            if cs[t] == '\n' {
                nl = true;
            }
            t = t + 1;
        }
        if !ok || k == dp || k <= 1 || cs[k - 1] != '_' || nl {
            proof {
                assert forall|p: Seq<char>, i: nat, e: Seq<char>| parses_as(ns, p, i, e) implies i > u32::MAX by {
                    let d = choose|d: Seq<char>| has_form(ns, p, d, e) && digits_value(d) == i;
                    lemma_dot_position(ns, p, d, e, after as int);
                    lemma_underscore_position(ns, p, d, e, k as int);
                    if !ok {
                        let t = choose|t: int| after <= t < n && !is_word_char(#[trigger] cs@[t]);
                        assert(ns[t] == e[t - after]);
                    }
                    if nl {
                        let u = choose|u: int| 0 <= u < pre_end && cs@[u] == '\n';
                        assert(p =~= ns.subrange(0, p.len() as int));
                        assert(p[u] == '\n');
                    }
                }
            }
            None
        } else {
            assert(all_digits(cs@.subrange(k as int, dp as int)));
            let v = capped_value(&cs, k, dp);
            let ghost p = ns.subrange(0, k - 1);
            let ghost d = ns.subrange(k as int, dp as int);
            let ghost e = ns.subrange(after as int, n as int);
            assert(ns =~= p + seq!['_'] + d + seq!['.'] + e);
            assert(has_form(ns, p, d, e));
            if v > 0xffff_ffff {
                proof {
                    assert forall|pb: Seq<char>, i: nat, e2: Seq<char>| parses_as(ns, pb, i, e2) implies i > u32::MAX by {
                        let d2 = choose|d2: Seq<char>| has_form(ns, pb, d2, e2) && digits_value(d2) == i;
                        lemma_form_unique(ns, p, d, e, pb, d2, e2);
                    }
                }
                None
            } else {
                let prefix = string_of_range(&cs, 0, k - 1);
                let ext = string_of_range(&cs, after, n);
                assert(parses_as(ns, prefix@, v as nat, ext@));
                Some(StructuredName { prefix, index: v as u32, ext })
            }
        }
    };
    proof {
        match &result {
            Some(sn) => {
                assert(parses_as(ns, sn.prefix@, sn.index as nat, sn.ext@));
                let (pb, i2, e2) = choose|p: Seq<char>, i: u32, e: Seq<char>| parses_as(ns, p, i as nat, e);
                lemma_parses_unique(ns, sn.prefix@, sn.index as nat, sn.ext@, pb, i2 as nat, e2);
            },
            None => {
                if exists|p: Seq<char>, i: u32, e: Seq<char>| parses_as(ns, p, i as nat, e) {
                    let (pb, i2, e2) = choose|p: Seq<char>, i: u32, e: Seq<char>| parses_as(ns, p, i as nat, e);
                    assert(parses_as(ns, pb, i2 as nat, e2));
                }
            },
        }
    }
    result
}

/// In a name of the form `p _ d . e`, the `.` is the last one.
proof fn lemma_dot_position(n: Seq<char>, p: Seq<char>, d: Seq<char>, e: Seq<char>, after: int)
    requires
        has_form(n, p, d, e),
        0 <= after <= n.len(),
        after == 0 || n[after - 1] == '.',
        forall|j: int| after <= j < n.len() ==> n[j] != '.',
    ensures
        after == p.len() + 1 + d.len() + 1,
        after < n.len(),
        forall|j: int| after <= j < n.len() ==> n[j] == e[j - after],
{
    let a = p + seq!['_'] + d;
    let dot: int = p.len() + 1 + d.len() as int;
    assert((a + seq!['.'])[dot] == '.');
    assert(n == (a + seq!['.']) + e);
    assert(n[dot] == '.');
    if after - 1 > dot {
        assert(n[after - 1] == e[after - 1 - dot - 1]);
        assert(is_word_char(e[after - 1 - dot - 1]));
    }
}

/// In a name of the form `p _ d . e`, a backward scan over digits that starts
/// at the `.` stops just after the `_`.
proof fn lemma_underscore_position(n: Seq<char>, p: Seq<char>, d: Seq<char>, e: Seq<char>, k: int)
    requires
        has_form(n, p, d, e),
        0 <= k <= p.len() + 1 + d.len(),
        k == 0 || !is_digit(n[k - 1]),
        forall|t: int| k <= t < p.len() + 1 + d.len() ==> is_digit(#[trigger] n[t]),
    ensures
        k == p.len() + 1,
{
    let a = p + seq!['_'] + d;
    let u = p.len() as int;
    assert((p + seq!['_'])[u] == '_');
    assert(a == (p + seq!['_']) + d);
    assert(a[u] == '_');
    assert(n == (a + seq!['.']) + e);
    assert(n[u] == '_');
    if k > u + 1 {
        assert(n[k - 1] == d[k - 1 - u - 1]);
    }
    if k <= u {
        assert(is_digit(n[u]));
    }
}

proof fn lemma_digit_char_value(k: int)
    requires
        0 <= k < 10,
    ensures
        is_digit(digit_char(k)),
        digit_value(digit_char(k)) == k,
{
}

/// The four padded digits of `i` read back as `i`.
proof fn lemma_pad4_value(i: int)
    requires
        0 <= i <= 9999,
    ensures
        all_digits(pad4(i)),
        digits_value(pad4(i)) == i,
{
    let a = i / 1000;
    let b = (i / 100) % 10;
    let c = (i / 10) % 10;
    let d = i % 10;
    lemma_digit_char_value(a);
    lemma_digit_char_value(b);
    lemma_digit_char_value(c);
    lemma_digit_char_value(d);
    let s = pad4(i);
    assert(s.drop_last() =~= seq![digit_char(a), digit_char(b), digit_char(c)]);
    assert(s.drop_last().drop_last() =~= seq![digit_char(a), digit_char(b)]);
    assert(s.drop_last().drop_last().drop_last() =~= seq![digit_char(a)]);
    assert(s.drop_last().drop_last().drop_last().drop_last() =~= Seq::<char>::empty());
    reveal_with_fuel(digits_value, 5);
    assert(((a * 10 + b) * 10 + c) * 10 + d == i) by (nonlinear_arith)
        requires
            a == i / 1000,
            b == (i / 100) % 10,
            c == (i / 10) % 10,
            d == i % 10,
            0 <= i <= 9999,
    ;
}

/// A number written in decimal reads back as itself.
proof fn lemma_decimal_value(n: nat)
    ensures
        decimal(n).len() > 0,
        all_digits(decimal(n)),
        digits_value(decimal(n)) == n,
    decreases n,
{
    if n < 10 {
        lemma_digit_char_value(n as int);
        assert(decimal(n).drop_last() =~= Seq::<char>::empty());
        assert(digits_value(decimal(n)) == digits_value(decimal(n).drop_last()) * 10 + digit_value(decimal(n).last()));
    } else {
        lemma_decimal_value(n / 10);
        lemma_digit_char_value((n % 10) as int);
        let s = decimal(n);
        assert(s.drop_last() =~= decimal(n / 10));
        assert forall|j: int| 0 <= j < s.len() implies is_digit(#[trigger] s[j]) by {
            if j < s.len() - 1 {
                assert(s[j] == decimal(n / 10)[j]);
            }
        }
        assert(n == (n / 10) * 10 + n % 10);
        assert(digits_value(s) == digits_value(s.drop_last()) * 10 + digit_value(s.last()));
        assert(s.last() == digit_char((n % 10) as int));
    }
}

/// The written index reads back as the index.
proof fn lemma_index_text_value(i: int)
    requires
        i >= 0,
    ensures
        index_text(i).len() > 0,
        all_digits(index_text(i)),
        digits_value(index_text(i)) == i,
{
    if i <= 9999 {
        lemma_pad4_value(i);
    } else {
        lemma_decimal_value(i as nat);
    }
}

/// Round trip of canonical naming: the name formatted from a non-empty
/// prefix without a line break, any index and an extension of word
/// characters reads back as exactly that prefix, index and extension.
pub proof fn lemma_canonical_round_trip(prefix: Seq<char>, index: u32, ext: Seq<char>)
    requires
        prefix.len() > 0,
        !prefix.contains('\n'),
        is_ext(ext),
    ensures
        parse_spec(canonical_name(prefix, index as int, ext)) == Some((prefix, index, ext)),
{
    let n = canonical_name(prefix, index as int, ext);
    lemma_index_text_value(index as int);
    assert(has_form(n, prefix, index_text(index as int), ext));
    assert(parses_as(n, prefix, index as nat, ext));
    let (pb, i2, e2) = choose|p: Seq<char>, i: u32, e: Seq<char>| parses_as(n, p, i as nat, e);
    lemma_parses_unique(n, prefix, index as nat, ext, pb, i2 as nat, e2);
}

/// Past the last `c`, no character is `c`.
pub proof fn lemma_last_index_after(s: Seq<char>, c: char)
    ensures
        -1 <= last_index(s, c) < s.len(),
        last_index(s, c) >= 0 ==> s[last_index(s, c)] == c,
        forall|j: int| last_index(s, c) < j < s.len() ==> s[j] != c,
    decreases s.len(),
{
    if s.len() > 0 && s.last() != c {
        lemma_last_index_after(s.drop_last(), c);
        assert forall|j: int| last_index(s, c) < j < s.len() implies s[j] != c by {
            if j < s.len() - 1 {
                assert(s.drop_last()[j] == s[j]);
            }
        }
    }
}

/// An extension holds no `.`.
pub proof fn lemma_ext_has_no_dot(name: Seq<char>)
    ensures
        !ext_of(name).contains('.'),
{
    lemma_last_index_after(name, '.');
    let e = ext_of(name);
    if e.contains('.') {
        let k = choose|k: int| 0 <= k < e.len() && e[k] == '.';
        let d = last_index(name, '.');
        assert(name[d + 1 + k] == '.');
    }
}

/// The extension of `x . e` is `e` when `e` holds no `.`.
proof fn lemma_ext_of_suffix(x: Seq<char>, e: Seq<char>)
    requires
        !e.contains('.'),
    ensures
        ext_of(x + seq!['.'] + e) == e,
{
    lemma_last_index_dot(x, e);
    assert((x + seq!['.'] + e).subrange(x.len() as int + 1, (x + seq!['.'] + e).len() as int) =~= e);
}

proof fn lemma_last_index_dot(x: Seq<char>, e: Seq<char>)
    requires
        !e.contains('.'),
    ensures
        last_index(x + seq!['.'] + e, '.') == x.len(),
    decreases e.len(),
{
    let n = x + seq!['.'] + e;
    if e.len() == 0 {
        assert(n.last() == '.');
    } else {
        assert(n.last() == e.last());
        assert(e.contains(e.last()) ==> e.last() != '.');
        assert(e.contains(e[e.len() - 1]));
        assert(n.drop_last() =~= x + seq!['.'] + e.drop_last());
        assert(!e.drop_last().contains('.')) by {
            if e.drop_last().contains('.') {
                let k = choose|k: int| 0 <= k < e.drop_last().len() && e.drop_last()[k] == '.';
                assert(e[k] == '.');
            }
        }
        lemma_last_index_dot(x, e.drop_last());
    }
}

/// Renaming keeps the extension: a canonical name built from the extension
/// of `name` has that same extension.
pub proof fn lemma_canonical_keeps_ext(prefix: Seq<char>, i: int, name: Seq<char>)
    ensures
        ext_of(canonical_name(prefix, i, ext_of(name))) == ext_of(name),
{
    lemma_ext_has_no_dot(name);
    let e = ext_of(name);
    if prefix.len() == 0 {
        lemma_ext_of_suffix(index_text(i), e);
    } else {
        lemma_ext_of_suffix(prefix + seq!['_'] + index_text(i), e);
    }
}

} // verus!
