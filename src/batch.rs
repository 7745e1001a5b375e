use vstd::prelude::*;
use vstd::relations::total_ordering;

use crate::names::{canonical_name, digit_char, ext_of, lemma_canonical_keeps_ext, pad4};
use crate::listing::{entry_managed, lemma_sorted_unique, listing_spec, managed_names, DirModel};
use crate::order::{lemma_lex_asymmetric, lemma_lex_irreflexive, lemma_lex_total, lemma_lex_transitive, lex_lt, lex_sorted};
use crate::rename::{
    phase_outcome, RenameError, RenameOp,
    apply_op, apply_ops, distinct_names, has_name, lemma_no_transient_collision, lemma_step_keeps_distinct,
    planned_ops, runs_clean,
};

verus! {

broadcast use vstd::seq_lib::group_to_multiset_ensures;

/// "Not after" in the lexicographic order.
pub open spec fn lex_le(a: Seq<char>, b: Seq<char>) -> bool {
    !lex_lt(b, a)
}

/// The managed names of a directory can be put in ascending order.
pub proof fn lemma_listing_exists(d: DirModel, exts: Set<Seq<char>>)
    ensures
        lex_sorted(listing_spec(d, exts)),
        listing_spec(d, exts).to_multiset() == managed_names(d, exts).to_multiset(),
{
    let leq = |a: Seq<char>, b: Seq<char>| lex_le(a, b);
    assert(total_ordering(leq)) by {
        assert forall|a: Seq<char>| #[trigger] leq(a, a) by {
            lemma_lex_irreflexive(a);
        }
        assert forall|a: Seq<char>, b: Seq<char>| #[trigger] leq(a, b) && #[trigger] leq(b, a) implies a == b by {
            lemma_lex_total(a, b);
        }
        assert forall|a: Seq<char>, b: Seq<char>, c: Seq<char>|
            #[trigger] leq(a, b) && #[trigger] leq(b, c) implies leq(a, c) by {
            lemma_lex_total(a, b);
            lemma_lex_total(b, c);
            if lex_lt(c, a) {
                if a != b && b != c {
                    lemma_lex_transitive(a, b, c);
                    lemma_lex_asymmetric(a, c);
                }
            }
        }
        assert forall|a: Seq<char>, b: Seq<char>| #[trigger] leq(a, b) || #[trigger] leq(b, a) by {
            lemma_lex_asymmetric(a, b);
        }
    }
    let m = managed_names(d, exts);
    m.lemma_sort_by_ensures(leq);
    let s = m.sort_by(leq);
    assert(lex_sorted(s)) by {
        assert forall|i: int, j: int| 0 <= i < j < s.len() implies !lex_lt(#[trigger] s[j], #[trigger] s[i]) by {
            assert(leq(s[i], s[j]));
        }
    }
}

/// The name that `n` ends with after the renames `o`, in order.
pub open spec fn renamed(o: Seq<(Seq<char>, Seq<char>)>, n: Seq<char>) -> Seq<char>
    decreases o.len(),
{
    if o.len() == 0 {
        n
    } else if o[0].0 == n {
        renamed(o.drop_first(), o[0].1)
    } else {
        renamed(o.drop_first(), n)
    }
}

/// The sources of a list of renames.
pub open spec fn sources(o: Seq<(Seq<char>, Seq<char>)>) -> Seq<Seq<char>> {
    o.map_values(|p: (Seq<char>, Seq<char>)| p.0)
}

proof fn lemma_renamed_other(o: Seq<(Seq<char>, Seq<char>)>, n: Seq<char>)
    requires
        !sources(o).contains(n),
    ensures
        renamed(o, n) == n,
    decreases o.len(),
{
    if o.len() > 0 {
        assert(sources(o)[0] == o[0].0);
        assert forall|k: int| 0 <= k < o.drop_first().len() implies sources(o.drop_first())[k] != n by {
            assert(sources(o.drop_first())[k] == sources(o)[k + 1]);
        }
        lemma_renamed_other(o.drop_first(), n);
    }
}

/// After the first step of a clean run whose sources are distinct and present,
/// the rest of the run is of the same kind, and no later step moves the file
/// that the first step renamed.
proof fn lemma_clean_step(d: DirModel, o: Seq<(Seq<char>, Seq<char>)>)
    requires
        distinct_names(d),
        runs_clean(d, o),
        sources(o).no_duplicates(),
        forall|k: int| 0 <= k < o.len() ==> has_name(d, #[trigger] o[k].0),
        o.len() > 0,
    ensures
        ({
            let d1 = apply_op(d, o[0]);
            let o1 = o.drop_first();
            &&& distinct_names(d1)
            &&& runs_clean(d1, o1)
            &&& sources(o1).no_duplicates()
            &&& forall|k: int| 0 <= k < o1.len() ==> has_name(d1, #[trigger] o1[k].0)
            &&& renamed(o1, o[0].1) == o[0].1
        }),
{
    let d1 = apply_op(d, o[0]);
    let o1 = o.drop_first();
    lemma_step_keeps_distinct(d, o[0]);
    assert(sources(o1) =~= sources(o).drop_first());
    assert forall|k: int| 0 <= k < o1.len() implies has_name(d1, #[trigger] o1[k].0) by {
        assert(o1[k] == o[k + 1]);
        assert(sources(o)[k + 1] != sources(o)[0]);
        let j = choose|j: int| 0 <= j < d.len() && d[j].0 == o[k + 1].0;
        assert(d1[j].0 == o1[k].0);
    }
    assert forall|k: int| 0 <= k < o1.len() implies sources(o1)[k] != o[0].1 by {
        assert(sources(o1)[k] == o[k + 1].0);
        assert(has_name(d, o[k + 1].0));
    }
    lemma_renamed_other(o1, o[0].1);
}

/// Renames with distinct sources, each present and each target free in turn,
/// rename each entry by `renamed`.
proof fn lemma_apply_ops_renamed(d: DirModel, o: Seq<(Seq<char>, Seq<char>)>)
    requires
        distinct_names(d),
        runs_clean(d, o),
        sources(o).no_duplicates(),
        forall|k: int| 0 <= k < o.len() ==> has_name(d, #[trigger] o[k].0),
    ensures
        apply_ops(d, o).len() == d.len(),
        forall|j: int| 0 <= j < d.len() ==> #[trigger] apply_ops(d, o)[j] == (renamed(o, d[j].0), d[j].1),
    decreases o.len(),
{
    if o.len() > 0 {
        let d1 = apply_op(d, o[0]);
        let o1 = o.drop_first();
        lemma_clean_step(d, o);
        lemma_apply_ops_renamed(d1, o1);
        assert forall|j: int| 0 <= j < d.len() implies #[trigger] apply_ops(d, o)[j] == (renamed(o, d[j].0), d[j].1) by {
            assert(apply_ops(d1, o1)[j] == (renamed(o1, d1[j].0), d1[j].1));
            if d[j].0 == o[0].0 {
                assert(d1[j] == (o[0].1, d[j].1));
            }
        }
    }
}

/// Within a clean run, each source ends with its own target.
proof fn lemma_renamed_source(d: DirModel, o: Seq<(Seq<char>, Seq<char>)>, k: int)
    requires
        distinct_names(d),
        runs_clean(d, o),
        sources(o).no_duplicates(),
        forall|t: int| 0 <= t < o.len() ==> has_name(d, #[trigger] o[t].0),
        0 <= k < o.len(),
    ensures
        renamed(o, o[k].0) == o[k].1,
    decreases o.len(),
{
    let d1 = apply_op(d, o[0]);
    let o1 = o.drop_first();
    lemma_clean_step(d, o);
    if k > 0 {
        assert(sources(o)[k] != sources(o)[0]);
        assert(o1[k - 1] == o[k]);
        lemma_renamed_source(d1, o1, k - 1);
    }
}

/// A managed name of `d` is the name of a managed entry.
proof fn lemma_managed_contains(d: DirModel, exts: Set<Seq<char>>, x: Seq<char>)
    ensures
        managed_names(d, exts).contains(x) <==> exists|j: int|
            0 <= j < d.len() && entry_managed(d[j], exts) && d[j].0 == x,
    decreases d.len(),
{
    if d.len() > 0 {
        let r = d.drop_last();
        lemma_managed_contains(r, exts, x);
        if managed_names(d, exts).contains(x) {
            let m = managed_names(d, exts);
            let k = choose|k: int| 0 <= k < m.len() && m[k] == x;
            if entry_managed(d.last(), exts) && k == m.len() - 1 {
                assert(d[d.len() - 1].0 == x);
            } else {
                assert(managed_names(r, exts)[k] == x);
                assert(managed_names(r, exts).contains(x));
                let j = choose|j: int| 0 <= j < r.len() && entry_managed(r[j], exts) && r[j].0 == x;
                assert(d[j] == r[j]);
            }
        }
        if exists|j: int| 0 <= j < d.len() && entry_managed(d[j], exts) && d[j].0 == x {
            let j = choose|j: int| 0 <= j < d.len() && entry_managed(d[j], exts) && d[j].0 == x;
            let m = managed_names(d, exts);
            if j == d.len() - 1 {
                assert(m[m.len() - 1] == x);
            } else {
                assert(r[j] == d[j]);
                let mr = managed_names(r, exts);
                let k = choose|k: int| 0 <= k < mr.len() && mr[k] == x;
                assert(m[k] == x);
            }
        }
    }
}

/// The managed names of a directory with distinct names are distinct.
proof fn lemma_managed_no_dups(d: DirModel, exts: Set<Seq<char>>)
    requires
        distinct_names(d),
    ensures
        managed_names(d, exts).no_duplicates(),
    decreases d.len(),
{
    if d.len() > 0 {
        let r = d.drop_last();
        assert(distinct_names(r)) by {
            assert forall|i: int, j: int| 0 <= i < j < r.len() implies r[i].0 != r[j].0 by {
                assert(r[i] == d[i] && r[j] == d[j]);
            }
        }
        lemma_managed_no_dups(r, exts);
        if entry_managed(d.last(), exts) {
            lemma_managed_contains(r, exts, d.last().0);
            if managed_names(r, exts).contains(d.last().0) {
                let j = choose|j: int| 0 <= j < r.len() && entry_managed(r[j], exts) && r[j].0 == d.last().0;
                assert(d[j].0 == d[d.len() - 1].0);
            }
            let m = managed_names(d, exts);
            let mr = managed_names(r, exts);
            assert forall|i: int, j: int| 0 <= i < m.len() && 0 <= j < m.len() && i != j implies m[i] != m[j] by {
                if i == m.len() - 1 {
                    assert(mr[j] == m[j]);
                } else if j == m.len() - 1 {
                    assert(mr[i] == m[i]);
                } else {
                    assert(mr[i] == m[i] && mr[j] == m[j]);
                }
            }
        }
    }
}

/// Two sequences without repeats that hold the same elements have the same
/// multiset.
proof fn lemma_same_elements_multiset(a: Seq<Seq<char>>, b: Seq<Seq<char>>)
    requires
        a.no_duplicates(),
        b.no_duplicates(),
        forall|x: Seq<char>| a.contains(x) <==> b.contains(x),
    ensures
        a.to_multiset() == b.to_multiset(),
{
    a.lemma_multiset_has_no_duplicates();
    b.lemma_multiset_has_no_duplicates();
    assert forall|x: Seq<char>| a.to_multiset().count(x) == b.to_multiset().count(x) by {
        if a.contains(x) {
            assert(a.to_multiset().contains(x));
            assert(b.to_multiset().contains(x));
        }
    }
    assert(a.to_multiset() =~= b.to_multiset());
}

proof fn lemma_lex_common_prefix(c: Seq<char>, x: Seq<char>, y: Seq<char>)
    ensures
        lex_lt(c + x, c + y) == lex_lt(x, y),
    decreases c.len(),
{
    if c.len() == 0 {
        assert(c + x =~= x);
        assert(c + y =~= y);
    } else {
        assert((c + x)[0] == (c + y)[0]);
        assert((c + x).drop_first() =~= c.drop_first() + x);
        assert((c + y).drop_first() =~= c.drop_first() + y);
        lemma_lex_common_prefix(c.drop_first(), x, y);
    }
}

proof fn lemma_digit_char_lt(x: int, y: int)
    requires
        0 <= x < y <= 9,
    ensures
        digit_char(x) < digit_char(y),
{
}

proof fn lemma_four_digits(i: int)
    requires
        0 <= i <= 9999,
    ensures
        0 <= i / 1000 <= 9,
        0 <= (i / 100) % 10 <= 9,
        0 <= (i / 10) % 10 <= 9,
        0 <= i % 10 <= 9,
        i == 1000 * (i / 1000) + 100 * ((i / 100) % 10) + 10 * ((i / 10) % 10) + i % 10,
{
    assert(i == 1000 * (i / 1000) + 100 * ((i / 100) % 10) + 10 * ((i / 10) % 10) + i % 10) by (nonlinear_arith)
        requires
            0 <= i <= 9999,
    ;
}

/// Zero-padded four-digit numbers order as the numbers do.
proof fn lemma_pad4_lex(i: int, j: int, s: Seq<char>, t: Seq<char>)
    requires
        0 <= i < j <= 9999,
    ensures
        lex_lt(pad4(i) + s, pad4(j) + t),
{
    lemma_four_digits(i);
    lemma_four_digits(j);
    let (i1, i2, i3, i4) = (i / 1000, (i / 100) % 10, (i / 10) % 10, i % 10);
    let (j1, j2, j3, j4) = (j / 1000, (j / 100) % 10, (j / 10) % 10, j % 10);
    let a0 = pad4(i) + s;
    let b0 = pad4(j) + t;
    let a1 = a0.drop_first();
    let b1 = b0.drop_first();
    let a2 = a1.drop_first();
    let b2 = b1.drop_first();
    let a3 = a2.drop_first();
    let b3 = b2.drop_first();
    assert(a0[0] == digit_char(i1) && b0[0] == digit_char(j1));
    assert(a1[0] == digit_char(i2) && b1[0] == digit_char(j2));
    assert(a2[0] == digit_char(i3) && b2[0] == digit_char(j3));
    assert(a3[0] == digit_char(i4) && b3[0] == digit_char(j4));
    if i1 != j1 {
        lemma_digit_char_lt(i1, j1);
    } else if i2 != j2 {
        lemma_digit_char_lt(i2, j2);
        assert(lex_lt(a1, b1));
    } else if i3 != j3 {
        lemma_digit_char_lt(i3, j3);
        assert(lex_lt(a2, b2));
        assert(lex_lt(a1, b1));
    } else {
        lemma_digit_char_lt(i4, j4);
        assert(lex_lt(a3, b3));
        assert(lex_lt(a2, b2));
        assert(lex_lt(a1, b1));
    }
}

/// Canonical names under one prefix order by their indices, whatever their
/// extensions.
proof fn lemma_canonical_lex(p: Seq<char>, i: int, j: int, e1: Seq<char>, e2: Seq<char>)
    requires
        0 <= i < j <= 9999,
    ensures
        lex_lt(canonical_name(p, i, e1), canonical_name(p, j, e2)),
{
    let s = seq!['.'] + e1;
    let t = seq!['.'] + e2;
    lemma_pad4_lex(i, j, s, t);
    if p.len() == 0 {
        assert(canonical_name(p, i, e1) =~= pad4(i) + s);
        assert(canonical_name(p, j, e2) =~= pad4(j) + t);
    } else {
        let c = p + seq!['_'];
        assert(canonical_name(p, i, e1) =~= c + (pad4(i) + s));
        assert(canonical_name(p, j, e2) =~= c + (pad4(j) + t));
        lemma_lex_common_prefix(c, pad4(i) + s, pad4(j) + t);
    }
}

/// The directory after one pass: its managed files, in ascending order,
/// renamed to `prefix` with the indices `start`, `start + 1`, ...
pub open spec fn after_pass(d: DirModel, exts: Set<Seq<char>>, prefix: Seq<char>, start: int) -> DirModel {
    apply_ops(d, planned_ops(listing_spec(d, exts), prefix, start))
}

/// What one clean pass does to each entry.
proof fn lemma_pass(d: DirModel, exts: Set<Seq<char>>, prefix: Seq<char>, start: int)
    requires
        distinct_names(d),
        runs_clean(d, planned_ops(listing_spec(d, exts), prefix, start)),
    ensures
        ({
            let files = listing_spec(d, exts);
            let d1 = after_pass(d, exts, prefix, start);
            &&& d1.len() == d.len()
            &&& distinct_names(d1)
            &&& lex_sorted(files)
            &&& files.no_duplicates()
            &&& forall|x: Seq<char>| files.contains(x) <==> managed_names(d, exts).contains(x)
            &&& forall|i: int, j: int| 0 <= i < files.len() && 0 <= j < d.len() && d[j].0 == files[i]
                ==> d1[j] == (canonical_name(prefix, start + i, ext_of(files[i])), d[j].1)
            &&& forall|j: int| 0 <= j < d.len() && !entry_managed(d[j], exts) ==> d1[j] == d[j]
            &&& forall|j: int| 0 <= j < d.len() && entry_managed(d[j], exts)
                ==> exists|i: int| 0 <= i < files.len() && files[i] == d[j].0
        }),
{
    let files = listing_spec(d, exts);
    let m = managed_names(d, exts);
    let plan = planned_ops(files, prefix, start);
    lemma_listing_exists(d, exts);
    lemma_managed_no_dups(d, exts);
    m.lemma_multiset_has_no_duplicates();
    assert forall|x: Seq<char>| files.contains(x) <==> m.contains(x) by {
        assert(files.to_multiset().count(x) == m.to_multiset().count(x));
    }
    assert forall|x: Seq<char>| files.to_multiset().contains(x) implies files.to_multiset().count(x) == 1 by {
        assert(m.to_multiset().contains(x));
    }
    files.lemma_multiset_has_no_duplicates_conv();
    assert(sources(plan) =~= files);
    assert forall|k: int| 0 <= k < plan.len() implies has_name(d, #[trigger] plan[k].0) by {
        assert(m.contains(files[k]));
        lemma_managed_contains(d, exts, files[k]);
    }
    lemma_apply_ops_renamed(d, plan);
    lemma_no_transient_collision(d, plan, plan.len() as int);
    assert(plan.take(plan.len() as int) =~= plan);
    let d1 = after_pass(d, exts, prefix, start);
    assert forall|i: int, j: int| 0 <= i < files.len() && 0 <= j < d.len() && d[j].0 == files[i]
        implies d1[j] == (canonical_name(prefix, start + i, ext_of(files[i])), d[j].1) by {
        lemma_renamed_source(d, plan, i);
    }
    assert forall|j: int| 0 <= j < d.len() && !entry_managed(d[j], exts) implies d1[j] == d[j] by {
        if sources(plan).contains(d[j].0) {
            assert(m.contains(d[j].0));
            lemma_managed_contains(d, exts, d[j].0);
            let j2 = choose|j2: int| 0 <= j2 < d.len() && entry_managed(d[j2], exts) && d[j2].0 == d[j].0;
            assert(j2 != j);
        }
        lemma_renamed_other(plan, d[j].0);
    }
    assert forall|j: int| 0 <= j < d.len() && entry_managed(d[j], exts)
        implies exists|i: int| 0 <= i < files.len() && files[i] == d[j].0 by {
        lemma_managed_contains(d, exts, d[j].0);
        assert(files.contains(d[j].0));
    }
}

/// The names a pass gives: the file at position `i` of the ascending listing
/// gets index `start + i` under `prefix`, keeping its extension.
pub open spec fn pass_targets(files: Seq<Seq<char>>, prefix: Seq<char>, start: int) -> Seq<Seq<char>> {
    Seq::new(files.len(), |i: int| canonical_name(prefix, start + i, ext_of(files[i])))
}

/// One pass, such as the staging pass: when `plan_phase` succeeds on a
/// directory (`r` is its result), carrying out the plan leaves names that are
/// still distinct, the file at position
/// `i` of the ascending listing holds the name `pass_targets(..)[i]` (and
/// keeps its kind), every other entry is as it was, and the managed names,
/// in ascending order, are exactly those targets.
pub proof fn lemma_one_pass(
    d: DirModel,
    exts: Set<Seq<char>>,
    prefix: Seq<char>,
    start: u32,
    r: Result<Vec<RenameOp>, RenameError>,
)
    requires
        phase_outcome(d, exts, prefix, start, r),
        r is Ok,
    ensures
        ({
            let files = listing_spec(d, exts);
            let t = pass_targets(files, prefix, start as int);
            let d1 = after_pass(d, exts, prefix, start as int);
            &&& d1.len() == d.len()
            &&& distinct_names(d1)
            &&& forall|i: int, j: int| 0 <= i < files.len() && 0 <= j < d.len() && d[j].0 == files[i]
                ==> d1[j] == (t[i], d[j].1)
            &&& forall|j: int| 0 <= j < d.len() && !entry_managed(d[j], exts) ==> d1[j] == d[j]
            &&& listing_spec(d1, exts) == t
        }),
{
    assert(r != Err::<Vec<RenameOp>, RenameError>(RenameError::IndexOutOfRange));
    let files = listing_spec(d, exts);
    let n = files.len();
    let d1 = after_pass(d, exts, prefix, start as int);
    lemma_pass(d, exts, prefix, start as int);
    let t1 = pass_targets(files, prefix, start as int);
    // The managed entries after the pass are exactly the targets.
    assert forall|j: int| 0 <= j < d.len() implies entry_managed(#[trigger] d1[j], exts) == entry_managed(d[j], exts) by {
        if entry_managed(d[j], exts) {
            let i = choose|i: int| 0 <= i < files.len() && files[i] == d[j].0;
            lemma_canonical_keeps_ext(prefix, start + i, files[i]);
        }
    }
    assert forall|x: Seq<char>| t1.contains(x) <==> managed_names(d1, exts).contains(x) by {
        lemma_managed_contains(d1, exts, x);
        if t1.contains(x) {
            let i = choose|i: int| 0 <= i < t1.len() && t1[i] == x;
            assert(files.contains(files[i]));
            lemma_managed_contains(d, exts, files[i]);
            let j = choose|j: int| 0 <= j < d.len() && entry_managed(d[j], exts) && d[j].0 == files[i];
            assert(d1[j].0 == x);
        }
        if managed_names(d1, exts).contains(x) {
            let j = choose|j: int| 0 <= j < d1.len() && entry_managed(d1[j], exts) && d1[j].0 == x;
            let i = choose|i: int| 0 <= i < files.len() && files[i] == d[j].0;
            assert(t1[i] == x);
        }
    }
    assert forall|i: int, k: int| 0 <= i < k < t1.len() implies lex_lt(#[trigger] t1[i], #[trigger] t1[k]) by {
        lemma_canonical_lex(prefix, start + i, start + k, ext_of(files[i]), ext_of(files[k]));
    }
    assert(lex_sorted(t1)) by {
        assert forall|i: int, k: int| 0 <= i < k < t1.len() implies !lex_lt(#[trigger] t1[k], #[trigger] t1[i]) by {
            lemma_lex_asymmetric(t1[i], t1[k]);
        }
    }
    assert(t1.no_duplicates()) by {
        assert forall|i: int, k: int| 0 <= i < t1.len() && 0 <= k < t1.len() && i != k implies t1[i] != t1[k] by {
            if i < k {
                lemma_lex_irreflexive(t1[i]);
            } else {
                lemma_lex_irreflexive(t1[k]);
            }
        }
    }
    lemma_managed_no_dups(d1, exts);
    lemma_same_elements_multiset(t1, managed_names(d1, exts));
    lemma_listing_exists(d1, exts);
    lemma_sorted_unique(t1, listing_spec(d1, exts));
}

/// Order preservation: a batch rename, a pass to any staging prefix and a
/// second pass to `prefix`, both from `start`, where `plan_phase` succeeds
/// for both (`r1`, `r2` are its results), gives the file at position `i` of
/// the initial ascending listing the index `start + i` under `prefix`, with
/// its extension, and leaves every other entry as it was. The outcome names
/// no staging prefix, so it is the same whichever one was drawn.
pub proof fn lemma_batch_keeps_order(
    d0: DirModel,
    exts: Set<Seq<char>>,
    staging: Seq<char>,
    prefix: Seq<char>,
    start: u32,
    r1: Result<Vec<RenameOp>, RenameError>,
    r2: Result<Vec<RenameOp>, RenameError>,
)
    requires
        phase_outcome(d0, exts, staging, start, r1),
        r1 is Ok,
        phase_outcome(after_pass(d0, exts, staging, start as int), exts, prefix, start, r2),
        r2 is Ok,
    ensures
        ({
            let files = listing_spec(d0, exts);
            let d2 = after_pass(after_pass(d0, exts, staging, start as int), exts, prefix, start as int);
            &&& d2.len() == d0.len()
            &&& forall|i: int, j: int| 0 <= i < files.len() && 0 <= j < d0.len() && d0[j].0 == files[i]
                ==> d2[j] == (canonical_name(prefix, start + i, ext_of(files[i])), d0[j].1)
            &&& forall|j: int| 0 <= j < d0.len() && !entry_managed(d0[j], exts) ==> d2[j] == d0[j]
        }),
{
    let files = listing_spec(d0, exts);
    let d1 = after_pass(d0, exts, staging, start as int);
    let t1 = pass_targets(files, staging, start as int);
    lemma_one_pass(d0, exts, staging, start, r1);
    // The second pass renames the staged names in the same order.
    lemma_pass(d1, exts, prefix, start as int);
    let d2 = after_pass(d1, exts, prefix, start as int);
    assert forall|i: int, j: int| 0 <= i < files.len() && 0 <= j < d0.len() && d0[j].0 == files[i]
        implies d2[j] == (canonical_name(prefix, start + i, ext_of(files[i])), d0[j].1) by {
        assert(d1[j] == (t1[i], d0[j].1));
        lemma_canonical_keeps_ext(staging, start + i, files[i]);
    }
    assert forall|j: int| 0 <= j < d0.len() && !entry_managed(d0[j], exts) implies d2[j] == d0[j] by {
        assert(d1[j] == d0[j]);
    }
}

} // verus!
