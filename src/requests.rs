use vstd::prelude::*;

use crate::listing::names_of;
use crate::names::{all_digits, is_digit, canonical_name, digits_value, format_canonical, parse_spec, parse_structured};
use crate::text::{chars_of, string_of_range};

verus! {

/// White space as `char::is_whitespace` has it (the Unicode `White_Space`
/// property).
pub open spec fn is_ws(c: char) -> bool {
    ('\u{9}' <= c && c <= '\u{d}') || c == ' ' || c == '\u{85}' || c == '\u{a0}'
        || c == '\u{1680}' || ('\u{2000}' <= c && c <= '\u{200a}') || c == '\u{2028}'
        || c == '\u{2029}' || c == '\u{202f}' || c == '\u{205f}' || c == '\u{3000}'
}

/// `s` without its leading white space.
pub open spec fn trim_start(s: Seq<char>) -> Seq<char>
    decreases s.len(),
{
    if s.len() > 0 && is_ws(s[0]) {
        trim_start(s.drop_first())
    } else {
        s
    }
}

/// `s` without its trailing white space.
pub open spec fn trim_end(s: Seq<char>) -> Seq<char>
    decreases s.len(),
{
    if s.len() > 0 && is_ws(s.last()) {
        trim_end(s.drop_last())
    } else {
        s
    }
}

/// `s` without leading and trailing white space.
pub open spec fn trim(s: Seq<char>) -> Seq<char> {
    trim_end(trim_start(s))
}

/// The `u32` that `t` writes: an optional `+` and one or more decimal digits
/// whose value fits.
pub open spec fn u32_of(t: Seq<char>) -> Option<u32> {
    let body = if t.len() > 0 && t[0] == '+' { t.drop_first() } else { t };
    if body.len() > 0 && all_digits(body) && digits_value(body) <= u32::MAX {
        Some(digits_value(body) as u32)
    } else {
        None
    }
}

/// What one line of a request list says.
#[derive(Debug, Clone, Copy, PartialEq, Eq, Structural)]
pub enum RequestLine {
    /// Nothing but white space: ignored.
    Blank,
    /// A requested index.
    Index(u32),
    /// Not a non-negative integer: skipped with a warning.
    Invalid,
}

/// The reading of one line.
pub open spec fn line_spec(line: Seq<char>) -> RequestLine {
    let t = trim(line);
    if t.len() == 0 {
        RequestLine::Blank
    } else {
        match u32_of(t) {
            Some(v) => RequestLine::Index(v),
            None => RequestLine::Invalid,
        }
    }
}

fn is_ws_exec(c: char) -> (r: bool)
    ensures
        r == is_ws(c),
{
    ('\u{9}' <= c && c <= '\u{d}') || c == ' ' || c == '\u{85}' || c == '\u{a0}'
        || c == '\u{1680}' || ('\u{2000}' <= c && c <= '\u{200a}') || c == '\u{2028}'
        || c == '\u{2029}' || c == '\u{202f}' || c == '\u{205f}' || c == '\u{3000}'
}

/// The bounds `lo..hi` of the trimmed part of `cs`.
fn trim_bounds(cs: &Vec<char>) -> (r: (usize, usize))
    ensures
        r.0 <= r.1 <= cs@.len(),
        cs@.subrange(r.0 as int, r.1 as int) == trim(cs@),
{
    let mut lo: usize = 0;
    assert(cs@.subrange(0, cs@.len() as int) =~= cs@);
    while lo < cs.len() && is_ws_exec(cs[lo])
        invariant
            lo <= cs@.len(),
            trim_start(cs@) == trim_start(cs@.subrange(lo as int, cs@.len() as int)),
        decreases cs@.len() - lo,
    {
        assert(cs@.subrange(lo as int, cs@.len() as int).drop_first() =~= cs@.subrange(lo + 1, cs@.len() as int));
        lo = lo + 1;
    }
    let mut hi: usize = cs.len();
    assert(trim_start(cs@) == cs@.subrange(lo as int, hi as int));
    while hi > lo && is_ws_exec(cs[hi - 1])
        invariant
            lo <= hi <= cs@.len(),
            trim(cs@) == trim_end(cs@.subrange(lo as int, hi as int)),
        decreases hi,
    {
        assert(cs@.subrange(lo as int, hi as int).drop_last() =~= cs@.subrange(lo as int, hi - 1));
        hi = hi - 1;
    }
    (lo, hi)
}

/// Reads one line of a request list: blank, an index, or invalid.
pub fn parse_request_line(line: &str) -> (r: RequestLine)
    ensures
        r == line_spec(line@),
{
    let cs = chars_of(line);
    let (lo, hi) = trim_bounds(&cs);
    let ghost t = cs@.subrange(lo as int, hi as int);
    if lo == hi {
        return RequestLine::Blank;
    }
    let start: usize = if cs[lo] == '+' { lo + 1 } else { lo };
    let ghost body = cs@.subrange(start as int, hi as int);
    assert(body =~= (if t.len() > 0 && t[0] == '+' { t.drop_first() } else { t }));
    if start == hi {
        return RequestLine::Invalid;
    }
    let mut v: u64 = 0;
    let mut j: usize = start;
    assert(cs@.subrange(start as int, start as int) =~= Seq::<char>::empty());
    while j < hi
        invariant
            start <= j <= hi <= cs@.len(),
            body == cs@.subrange(start as int, hi as int),
            t == cs@.subrange(lo as int, hi as int),
            t == trim(line@),
            cs@ == line@,
            body == (if t.len() > 0 && t[0] == '+' { t.drop_first() } else { t }),
            all_digits(cs@.subrange(start as int, j as int)),
            v as int == digits_value(cs@.subrange(start as int, j as int)),
            v <= u32::MAX,
        decreases hi - j,
    {
        let c = cs[j];
        if !('0' <= c && c <= '9') {
            assert(body[(j - start) as int] == c);
            assert(!is_digit(body[(j - start) as int]));
            return RequestLine::Invalid;
        }
        assert(cs@.subrange(start as int, j + 1).drop_last() =~= cs@.subrange(start as int, j as int));
        v = v * 10 + (c as u32 - '0' as u32) as u64;
        if v > 0xffff_ffff {
            proof {
                lemma_digits_prefix_bound(body, j + 1 - start);
                assert(body.subrange(0, j + 1 - start) =~= cs@.subrange(start as int, j + 1));
            }
            return RequestLine::Invalid;
        }
        j = j + 1;
    }
    assert(cs@.subrange(start as int, j as int) =~= body);
    assert(u32_of(t) == Some(v as u32));
    RequestLine::Index(v as u32)
}

/// `line` without leading and trailing white space.
pub fn trim_text(line: &str) -> (r: String)
    ensures
        r@ == trim(line@),
{
    let cs = chars_of(line);
    let (lo, hi) = trim_bounds(&cs);
    string_of_range(&cs, lo, hi)
}

/// The indices requested by some line of `ls`.
pub open spec fn requested_from(ls: Seq<Seq<char>>) -> Set<u32> {
    Set::new(|v: u32| exists|i: int| 0 <= i < ls.len() && line_spec(ls[i]) == RequestLine::Index(v))
}

/// The trimmed text of the invalid lines of `ls`, in order.
pub open spec fn skipped_lines(ls: Seq<Seq<char>>) -> Seq<Seq<char>>
    decreases ls.len(),
{
    if ls.len() == 0 {
        Seq::empty()
    } else {
        let rest = skipped_lines(ls.drop_last());
        if line_spec(ls.last()) == RequestLine::Invalid {
            rest.push(trim(ls.last()))
        } else {
            rest
        }
    }
}

/// What a request list asks for.
#[derive(Debug)]
pub struct RequestSet {
    /// The requested indices, each once.
    pub indices: Vec<u32>,
    /// The trimmed text of each line that was skipped as invalid.
    pub warnings: Vec<String>,
}

fn holds_u32(v: &Vec<u32>, x: u32) -> (r: bool)
    ensures
        r == v@.contains(x),
{
    let mut j: usize = 0;
    while j < v.len()
        invariant
            j <= v@.len(),
            forall|t: int| 0 <= t < j ==> v@[t] != x,
        decreases v@.len() - j,
    {
        if v[j] == x {
            return true;
        }
        j = j + 1;
    }
    false
}

/// Reads the lines of a request list. Blank lines are ignored; a line that
/// is not a non-negative integer is skipped and reported; repeated indices
/// count once.
pub fn read_requested_indices(lines: &Vec<String>) -> (r: RequestSet)
    ensures
        r.indices@.no_duplicates(),
        r.indices@.to_set() == requested_from(names_of(lines@)),
        names_of(r.warnings@) == skipped_lines(names_of(lines@)),
{
    let ghost ls = names_of(lines@);
    let mut indices: Vec<u32> = Vec::new();
    let mut warnings: Vec<String> = Vec::new();
    let mut i: usize = 0;
    while i < lines.len()
        invariant
            i <= lines@.len(),
            ls == names_of(lines@),
            indices@.no_duplicates(),
            indices@.to_set() == requested_from(ls.subrange(0, i as int)),
            names_of(warnings@) == skipped_lines(ls.subrange(0, i as int)),
        decreases lines@.len() - i,
    {
        let ghost pre = ls.subrange(0, i as int);
        let ghost cur = ls.subrange(0, i + 1);
        assert(cur.drop_last() =~= pre);
        assert(cur.last() == lines@[i as int]@);
        let ghost old_indices = indices@;
        let ghost old_warnings = warnings@;
        let parsed = parse_request_line(lines[i].as_str());
        match parsed {
            RequestLine::Blank => {},
            RequestLine::Index(v) => {
                if !holds_u32(&indices, v) {
                    indices.push(v);
                }
            },
            RequestLine::Invalid => {
                warnings.push(trim_text(lines[i].as_str()));
                assert(names_of(warnings@) =~= names_of(old_warnings).push(trim(cur.last())));
            },
        }
        assert(indices@.to_set() =~= requested_from(cur)) by {
            assert forall|v: u32| requested_from(cur).contains(v) implies indices@.to_set().contains(v) by {
                let k = choose|k: int| 0 <= k < cur.len() && line_spec(cur[k]) == RequestLine::Index(v);
                if k < i {
                    assert(pre[k] == cur[k]);
                    assert(requested_from(pre).contains(v));
                    assert(old_indices.to_set().contains(v));
                    let m = choose|m: int| 0 <= m < old_indices.len() && old_indices[m] == v;
                    assert(indices@[m] == v);
                } else {
                    assert(parsed == RequestLine::Index(v));
                    if old_indices.contains(v) {
                        let m = choose|m: int| 0 <= m < old_indices.len() && old_indices[m] == v;
                        assert(indices@[m] == v);
                    } else {
                        assert(indices@.last() == v);
                    }
                }
            }
            assert forall|v: u32| indices@.to_set().contains(v) implies requested_from(cur).contains(v) by {
                let m = choose|m: int| 0 <= m < indices@.len() && indices@[m] == v;
                if m < old_indices.len() {
                    assert(old_indices.to_set().contains(v));
                    let k = choose|k: int| 0 <= k < pre.len() && line_spec(pre[k]) == RequestLine::Index(v);
                    assert(cur[k] == pre[k]);
                } else {
                    assert(line_spec(cur[i as int]) == RequestLine::Index(v));
                }
            }
        }
        i = i + 1;
    }
    assert(ls.subrange(0, lines@.len() as int) =~= ls);
    RequestSet { indices, warnings }
}

/// The files picked by `req` among `avail`, each under its reconstructed
/// canonical name, in order: those whose structured reading has an index in
/// `req`.
pub open spec fn selected(avail: Seq<Seq<char>>, req: Set<u32>) -> Seq<Seq<char>>
    decreases avail.len(),
{
    if avail.len() == 0 {
        Seq::empty()
    } else {
        let rest = selected(avail.drop_last(), req);
        match parse_spec(avail.last()) {
            Some((p, i, e)) => if req.contains(i) {
                rest.push(canonical_name(p, i as int, e))
            } else {
                rest
            },
            None => rest,
        }
    }
}

/// The copy sources for a request: each available file whose structured
/// name has a requested index, named in canonical form. Requests are matched
/// against the index written in the name, not against positions in the
/// list. Files without a structured name are never picked.
pub fn select_for_copy(requested: &Vec<u32>, available: &Vec<String>) -> (r: Vec<String>)
    ensures
        names_of(r@) == selected(names_of(available@), requested@.to_set()),
{
    let ghost av = names_of(available@);
    let ghost req = requested@.to_set();
    let mut out: Vec<String> = Vec::new();
    let mut i: usize = 0;
    while i < available.len()
        invariant
            i <= available@.len(),
            av == names_of(available@),
            req == requested@.to_set(),
            names_of(out@) == selected(av.subrange(0, i as int), req),
        decreases available@.len() - i,
    {
        let ghost cur = av.subrange(0, i + 1);
        assert(cur.drop_last() =~= av.subrange(0, i as int));
        assert(cur.last() == available@[i as int]@);
        let ghost old_out = out@;
        match parse_structured(available[i].as_str()) {
            Some(sn) => {
                if holds_u32(requested, sn.index) {
                    let name = format_canonical(sn.prefix.as_str(), sn.index, sn.ext.as_str());
                    out.push(name);
                    assert(names_of(out@) =~= names_of(old_out).push(names_of(out@).last()));
                }
            },
            None => {},
        }
        i = i + 1;
    }
    assert(av.subrange(0, available@.len() as int) =~= av);
    out
}

/// The index of a name that has a structured reading.
pub open spec fn parsed_index(name: Seq<char>) -> u32 {
    let (_, i, _) = parse_spec(name)->0;
    i
}

/// A name with a structured reading, rebuilt in canonical form.
pub open spec fn picked_name(name: Seq<char>) -> Seq<char> {
    let (p, i, e) = parse_spec(name)->0;
    canonical_name(p, i as int, e)
}

proof fn lemma_selected_one(avail: Seq<Seq<char>>, v: u32, k: int, n: int)
    requires
        0 <= k < avail.len(),
        0 <= n <= avail.len(),
        parse_spec(avail[k]) is Some,
        parsed_index(avail[k]) == v,
        forall|j: int| 0 <= j < avail.len() && j != k && parse_spec(#[trigger] avail[j]) is Some
            ==> parsed_index(avail[j]) != v,
    ensures
        selected(avail.subrange(0, n), set![v]) == if n > k { seq![picked_name(avail[k])] } else { Seq::empty() },
    decreases n,
{
    let a = avail.subrange(0, n);
    if n > 0 {
        lemma_selected_one(avail, v, k, n - 1);
        assert(a.drop_last() =~= avail.subrange(0, n - 1));
        assert(a.last() == avail[n - 1]);
        if n - 1 == k {
            assert(seq![picked_name(avail[k])] =~= Seq::<Seq<char>>::empty().push(picked_name(avail[k])));
        }
    } else {
        assert(a =~= Seq::<Seq<char>>::empty());
    }
}

/// Resolver tolerance: a request list whose only well-formed lines request
/// `v`, all other lines being blank or invalid, asks for `v` alone; against
/// files of which exactly one reads with index `v`, it selects exactly that
/// file, under its canonical name. Each invalid line is reported (the
/// `warnings` of `read_requested_indices`).
pub proof fn lemma_resolver_tolerance(ls: Seq<Seq<char>>, avail: Seq<Seq<char>>, v: u32, k: int)
    requires
        forall|i: int| 0 <= i < ls.len() && #[trigger] line_spec(ls[i]) is Index
            ==> line_spec(ls[i]) == RequestLine::Index(v),
        exists|i: int| 0 <= i < ls.len() && #[trigger] line_spec(ls[i]) == RequestLine::Index(v),
        0 <= k < avail.len(),
        parse_spec(avail[k]) is Some,
        parsed_index(avail[k]) == v,
        forall|j: int| 0 <= j < avail.len() && j != k && parse_spec(#[trigger] avail[j]) is Some
            ==> parsed_index(avail[j]) != v,
    ensures
        requested_from(ls) == set![v],
        selected(avail, requested_from(ls)) == seq![picked_name(avail[k])],
{
    assert forall|x: u32| requested_from(ls).contains(x) <==> x == v by {
        if requested_from(ls).contains(x) {
            let i = choose|i: int| 0 <= i < ls.len() && line_spec(ls[i]) == RequestLine::Index(x);
            assert(line_spec(ls[i]) is Index);
        }
    }
    assert(requested_from(ls) =~= set![v]);
    lemma_selected_one(avail, v, k, avail.len() as int);
    assert(avail.subrange(0, avail.len() as int) =~= avail);
}

/// The value of a prefix of a digit string is at most the value of the whole.
proof fn lemma_digits_prefix_bound(d: Seq<char>, k: int)
    requires
        0 <= k <= d.len(),
    ensures
        digits_value(d.subrange(0, k)) <= digits_value(d),
    decreases d.len() - k,
{
    if k < d.len() {
        lemma_digits_prefix_bound(d, k + 1);
        assert(d.subrange(0, k + 1).drop_last() =~= d.subrange(0, k));
    } else {
        assert(d.subrange(0, k) =~= d);
    }
}

} // verus!
