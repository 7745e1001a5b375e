use vstd::prelude::*;

use crate::extensions::{is_managed, is_managed_spec, ExtensionSet};
use crate::order::{lemma_lex_asymmetric, lemma_lex_total, lemma_lex_transitive, lex_lt, lex_sorted, str_less};

verus! {

broadcast use vstd::seq_lib::group_to_multiset_ensures;

/// One entry of a directory listing.
pub struct DirEntry {
    pub name: String,
    pub is_dir: bool,
}

/// A directory as a sequence of (name, is a directory) pairs.
pub type DirModel = Seq<(Seq<char>, bool)>;

/// The model of a directory listing.
pub open spec fn dir_model(es: Seq<DirEntry>) -> DirModel {
    es.map_values(|e: DirEntry| (e.name@, e.is_dir))
}

/// A file (not a directory) whose extension is managed.
pub open spec fn entry_managed(e: (Seq<char>, bool), exts: Set<Seq<char>>) -> bool {
    !e.1 && is_managed_spec(e.0, exts)
}

/// The names of the managed entries, in listing order.
pub open spec fn managed_names(d: DirModel, exts: Set<Seq<char>>) -> Seq<Seq<char>>
    decreases d.len(),
{
    if d.len() == 0 {
        Seq::empty()
    } else {
        let rest = managed_names(d.drop_last(), exts);
        if entry_managed(d.last(), exts) {
            rest.push(d.last().0)
        } else {
            rest
        }
    }
}

/// The managed names of a directory in ascending order.
pub open spec fn listing_spec(d: DirModel, exts: Set<Seq<char>>) -> Seq<Seq<char>> {
    choose|s: Seq<Seq<char>>| lex_sorted(s) && s.to_multiset() == managed_names(d, exts).to_multiset()
}

/// Two sorted sequences with the same elements are equal.
pub proof fn lemma_sorted_unique(a: Seq<Seq<char>>, b: Seq<Seq<char>>)
    requires
        lex_sorted(a),
        lex_sorted(b),
        a.to_multiset() == b.to_multiset(),
    ensures
        a == b,
    decreases a.len(),
{
    assert(a.len() == a.to_multiset().len());
    assert(b.len() == b.to_multiset().len());
    if a.len() > 0 {
        assert(a.contains(a[0]));
        assert(b.to_multiset().count(a[0]) > 0);
        assert(b.contains(a[0]));
        let k = choose|k: int| 0 <= k < b.len() && b[k] == a[0];
        assert(b.contains(b[0]));
        assert(a.to_multiset().count(b[0]) > 0);
        assert(a.contains(b[0]));
        let m = choose|m: int| 0 <= m < a.len() && a[m] == b[0];
        if k > 0 {
            assert(!lex_lt(b[k], b[0]));
        }
        if m > 0 {
            assert(!lex_lt(a[m], a[0]));
        }
        lemma_lex_total(a[0], b[0]);
        assert(a[0] == b[0]);
        assert(a.remove(0).to_multiset() == a.to_multiset().remove(a[0]));
        assert(b.remove(0).to_multiset() == b.to_multiset().remove(b[0]));
        assert(a.remove(0) =~= a.drop_first());
        assert(b.remove(0) =~= b.drop_first());
        assert(lex_sorted(a.drop_first())) by {
            assert forall|i: int, j: int| 0 <= i < j < a.drop_first().len() implies
                !lex_lt(#[trigger] a.drop_first()[j], #[trigger] a.drop_first()[i]) by {
                assert(a.drop_first()[j] == a[j + 1]);
                assert(a.drop_first()[i] == a[i + 1]);
            }
        }
        assert(lex_sorted(b.drop_first())) by {
            assert forall|i: int, j: int| 0 <= i < j < b.drop_first().len() implies
                !lex_lt(#[trigger] b.drop_first()[j], #[trigger] b.drop_first()[i]) by {
                assert(b.drop_first()[j] == b[j + 1]);
                assert(b.drop_first()[i] == b[i + 1]);
            }
        }
        lemma_sorted_unique(a.drop_first(), b.drop_first());
        assert(a.len() == b.len());
        assert forall|i: int| 0 <= i < a.len() implies a[i] == b[i] by {
            if i > 0 {
                assert(a[i] == a.drop_first()[i - 1]);
                assert(b[i] == b.drop_first()[i - 1]);
            }
        }
        assert(a =~= b);
    } else {
        assert(a =~= b);
    }
}

/// The character sequences of a list of strings.
pub open spec fn names_of(v: Seq<String>) -> Seq<Seq<char>> {
    v.map_values(|s: String| s@)
}

/// Inserts `s` into the sorted `v`, after the names that are not greater.
fn insert_sorted(v: &mut Vec<String>, s: String)
    requires
        lex_sorted(names_of(old(v)@)),
    ensures
        lex_sorted(names_of(final(v)@)),
        names_of(final(v)@).to_multiset() == names_of(old(v)@).to_multiset().insert(s@),
{
    let ghost old_names = names_of(v@);
    let mut pos: usize = 0;
    while pos < v.len() && !str_less(s.as_str(), v[pos].as_str())
        invariant
            pos <= v@.len(),
            v@ == old(v)@,
            old_names == names_of(v@),
            forall|t: int| 0 <= t < pos ==> !lex_lt(s@, #[trigger] old_names[t]),
        decreases v@.len() - pos,
    {
        pos = pos + 1;
    }
    let ghost sv = s@;
    v.insert(pos, s);
    let ghost w = names_of(v@);
    assert(w =~= old_names.insert(pos as int, sv));
    assert forall|i: int, j: int| 0 <= i < j < w.len() implies !lex_lt(#[trigger] w[j], #[trigger] w[i]) by {
        if j == pos {
        } else if i == pos {
            let o = old_names[j - 1];
            assert(w[j] == o);
            assert(lex_lt(sv, old_names[pos as int]));
            if j - 1 == pos {
                lemma_lex_asymmetric(sv, o);
            } else {
                assert(!lex_lt(o, old_names[pos as int]));
                lemma_lex_total(o, old_names[pos as int]);
                if o != old_names[pos as int] {
                    lemma_lex_transitive(sv, old_names[pos as int], o);
                }
                lemma_lex_asymmetric(sv, o);
            }
        } else {
            let oi = if i < pos { i } else { i - 1 };
            let oj = if j < pos { j } else { j - 1 };
            assert(w[i] == old_names[oi]);
            assert(w[j] == old_names[oj]);
        }
    }
    assert(w.remove(pos as int) =~= old_names);
    assert(w.to_multiset() =~= old_names.to_multiset().insert(sv));
}

/// The names of the managed files among `entries` (files, not directories,
/// whose lower-cased extension is in `exts`), sorted in ascending order.
pub fn list_managed_files(entries: &Vec<DirEntry>, exts: &ExtensionSet) -> (r: Vec<String>)
    ensures
        names_of(r@) == listing_spec(dir_model(entries@), exts@),
        lex_sorted(names_of(r@)),
        names_of(r@).to_multiset() == managed_names(dir_model(entries@), exts@).to_multiset(),
{
    let ghost d = dir_model(entries@);
    let mut v: Vec<String> = Vec::new();
    let mut i: usize = 0;
    assert(names_of(v@) =~= Seq::<Seq<char>>::empty());
    while i < entries.len()
        invariant
            i <= entries@.len(),
            lex_sorted(names_of(v@)),
            d == dir_model(entries@),
            names_of(v@).to_multiset() == managed_names(d.subrange(0, i as int), exts@).to_multiset(),
        decreases entries@.len() - i,
    {
        let e = &entries[i];
        assert(d.subrange(0, i + 1).drop_last() =~= d.subrange(0, i as int));
        if !e.is_dir && is_managed(e.name.as_str(), exts) {
            insert_sorted(&mut v, e.name.clone());
        }
        i = i + 1;
    }
    assert(d.subrange(0, entries@.len() as int) =~= d);
    proof {
        let s = listing_spec(d, exts@);
        assert(lex_sorted(names_of(v@)) && names_of(v@).to_multiset() == managed_names(d, exts@).to_multiset());
        lemma_sorted_unique(s, names_of(v@));
    }
    v
}

} // verus!
