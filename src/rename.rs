use rand::distr::{Alphanumeric, SampleString};
use vstd::prelude::*;

use crate::extensions::ExtensionSet;
use crate::listing::{dir_model, list_managed_files, listing_spec, names_of, DirEntry, DirModel};
use crate::names::{canonical_name, ext_of, _get_file_extension, format_canonical};

verus! {

/// Why a rename plan cannot be carried out.
#[derive(Debug, Clone, Copy, PartialEq, Eq, Structural)]
pub enum RenameError {
    /// An index above 9999, which four digits cannot write.
    IndexOutOfRange,
    /// A step would rename a missing file, or onto a name already taken; or
    /// the listing holds one name twice.
    Collision,
}

/// One rename: the file named `from` takes the name `to`.
#[derive(Debug)]
pub struct RenameOp {
    pub from: String,
    pub to: String,
}

/// The (from, to) pairs of a list of renames.
pub open spec fn ops_of(v: Seq<RenameOp>) -> Seq<(Seq<char>, Seq<char>)> {
    v.map_values(|o: RenameOp| (o.from@, o.to@))
}

/// The renames that give the `i`-th of `files` the index `start + i` under
/// `prefix`, keeping its extension.
pub open spec fn planned_ops(files: Seq<Seq<char>>, prefix: Seq<char>, start: int) -> Seq<(Seq<char>, Seq<char>)> {
    Seq::new(files.len(), |i: int| (files[i], canonical_name(prefix, start + i, ext_of(files[i]))))
}

/// Some entry of `d` is named `n`.
pub open spec fn has_name(d: DirModel, n: Seq<char>) -> bool {
    exists|j: int| 0 <= j < d.len() && d[j].0 == n
}

/// No two entries of `d` share a name.
pub open spec fn distinct_names(d: DirModel) -> bool {
    forall|i: int, j: int| 0 <= i < j < d.len() ==> d[i].0 != d[j].0
}

/// `d` after the file named `op.0` is renamed to `op.1`.
pub open spec fn apply_op(d: DirModel, op: (Seq<char>, Seq<char>)) -> DirModel {
    d.map_values(|e: (Seq<char>, bool)| if e.0 == op.0 { (op.1, e.1) } else { e })
}

/// `d` after the renames `ops`, in order.
pub open spec fn apply_ops(d: DirModel, ops: Seq<(Seq<char>, Seq<char>)>) -> DirModel
    decreases ops.len(),
{
    if ops.len() == 0 {
        d
    } else {
        apply_ops(apply_op(d, ops[0]), ops.drop_first())
    }
}

/// Carrying out `ops` in order on `d`, each source exists and each target is
/// free when its turn comes.
pub open spec fn runs_clean(d: DirModel, ops: Seq<(Seq<char>, Seq<char>)>) -> bool
    decreases ops.len(),
{
    ops.len() == 0 || (has_name(d, ops[0].0) && !has_name(d, ops[0].1) && runs_clean(
        apply_op(d, ops[0]),
        ops.drop_first(),
    ))
}

/// The new name of the file `name` under `new_prefix` with `index`:
/// `new_prefix_NNNN.ext` (`NNNN.ext` for an empty prefix), the extension taken
/// from `name`. Fails when the index is above 9999.
pub fn rename_target(name: &str, new_prefix: &str, index: u32) -> (r: Result<String, RenameError>)
    ensures
        r is Err <==> index > 9999,
        r is Err ==> r->Err_0 == RenameError::IndexOutOfRange,
        r is Ok ==> r->Ok_0@ == canonical_name(new_prefix@, index as int, ext_of(name@)),
{
    if index > 9999 {
        return Err(RenameError::IndexOutOfRange);
    }
    let ext = _get_file_extension(name);
    Ok(format_canonical(new_prefix, index, ext.as_str()))
}

/// The renames that number `files` in order from `start` under `prefix`.
/// Fails when the last index would be above 9999.
pub fn _rename_all_photos(files: &Vec<String>, prefix: &str, start: u32) -> (r: Result<Vec<RenameOp>, RenameError>)
    ensures
        r is Err <==> files@.len() > 0 && start + files@.len() - 1 > 9999,
        r is Err ==> r->Err_0 == RenameError::IndexOutOfRange,
        r is Ok ==> ops_of(r->Ok_0@) == planned_ops(names_of(files@), prefix@, start as int),
{
    if files.len() > 0 && (files.len() > 10000 || start as u64 + files.len() as u64 > 10000) {
        return Err(RenameError::IndexOutOfRange);
    }
    let mut ops: Vec<RenameOp> = Vec::new();
    let mut i: usize = 0;
    while i < files.len()
        invariant
            i <= files@.len(),
            files@.len() == 0 || start + files@.len() - 1 <= 9999,
            ops@.len() == i,
            forall|t: int| 0 <= t < i ==> #[trigger] ops_of(ops@)[t] == planned_ops(names_of(files@), prefix@, start as int)[t],
        decreases files@.len() - i,
    {
        let index: u32 = start + i as u32;
        let to = match rename_target(files[i].as_str(), prefix, index) {
            Ok(to) => to,
            Err(e) => return Err(e),
        };
        let ghost before = ops@;
        let from = files[i].clone();
        assert(from@ == names_of(files@)[i as int]);
        assert(to@ == planned_ops(names_of(files@), prefix@, start as int)[i as int].1);
        ops.push(RenameOp { from, to });
        assert(ops@ == before.push(ops@[i as int]));
        assert forall|t: int| 0 <= t < i + 1 implies #[trigger] ops_of(ops@)[t] == planned_ops(names_of(files@), prefix@, start as int)[t] by {
            assert(ops_of(ops@)[t] == (ops@[t].from@, ops@[t].to@));
            if t < i {
                assert(ops@[t] == before[t]);
                assert(ops_of(before)[t] == (before[t].from@, before[t].to@));
            }
        }
        i = i + 1;
    }
    assert(ops_of(ops@) =~= planned_ops(names_of(files@), prefix@, start as int));
    Ok(ops)
}

/// The names of the entries of `d`, in order.
pub open spec fn model_names(d: DirModel) -> Seq<Seq<char>> {
    d.map_values(|e: (Seq<char>, bool)| e.0)
}

/// What one pass yields on `d`: the plan that numbers the managed files in
/// ascending order from `start` under `prefix`, or the error that stops it.
pub open spec fn phase_outcome(
    d: DirModel,
    exts: Set<Seq<char>>,
    prefix: Seq<char>,
    start: u32,
    r: Result<Vec<RenameOp>, RenameError>,
) -> bool {
    let files = listing_spec(d, exts);
    let plan = planned_ops(files, prefix, start as int);
    let too_many = files.len() > 0 && start + files.len() - 1 > 9999;
    &&& (r == Err::<Vec<RenameOp>, RenameError>(RenameError::IndexOutOfRange) <==> too_many)
    &&& (r == Err::<Vec<RenameOp>, RenameError>(RenameError::Collision)
        <==> !too_many && !(distinct_names(d) && runs_clean(d, plan)))
    &&& (r is Ok ==> ops_of(r->Ok_0@) == plan && distinct_names(d) && runs_clean(d, plan))
}

/// Whether some string of `v` equals `n`.
fn holds_name(v: &Vec<String>, n: &String) -> (r: bool)
    ensures
        r == exists|j: int| 0 <= j < v@.len() && v@[j]@ == n@,
{
    let mut j: usize = 0;
    while j < v.len()
        invariant
            j <= v@.len(),
            forall|t: int| 0 <= t < j ==> v@[t]@ != n@,
        decreases v@.len() - j,
    {
        if v[j] == *n {
            return true;
        }
        j = j + 1;
    }
    false
}

/// Whether no two entries of the listing share a name.
pub fn names_distinct(entries: &Vec<DirEntry>) -> (r: bool)
    ensures
        r == distinct_names(dir_model(entries@)),
{
    let ghost d = dir_model(entries@);
    let mut i: usize = 0;
    while i < entries.len()
        invariant
            i <= entries@.len(),
            d == dir_model(entries@),
            forall|a: int, b: int| 0 <= a < b < entries@.len() && a < i ==> d[a].0 != d[b].0,
        decreases entries@.len() - i,
    {
        let mut j: usize = i + 1;
        while j < entries.len()
            invariant
                i < entries@.len(),
                i + 1 <= j <= entries@.len(),
                d == dir_model(entries@),
                forall|a: int, b: int| 0 <= a < b < entries@.len() && a < i ==> d[a].0 != d[b].0,
                forall|b: int| i < b < j ==> d[i as int].0 != d[b].0,
            decreases entries@.len() - j,
        {
            if entries[i].name == entries[j].name {
                assert(d[i as int].0 == d[j as int].0);
                return false;
            }
            j = j + 1;
        }
        i = i + 1;
    }
    true
}

/// Whether carrying out `ops` in order on the directory `entries` finds each
/// source present and each target free.
pub fn check_plan(entries: &Vec<DirEntry>, ops: &Vec<RenameOp>) -> (r: bool)
    ensures
        r == runs_clean(dir_model(entries@), ops_of(ops@)),
{
    let ghost all = ops_of(ops@);
    let mut cur: Vec<String> = Vec::new();
    let mut k: usize = 0;
    while k < entries.len()
        invariant
            k <= entries@.len(),
            cur@.len() == k,
            forall|t: int| 0 <= t < k ==> #[trigger] cur@[t]@ == entries@[t].name@,
        decreases entries@.len() - k,
    {
        cur.push(entries[k].name.clone());
        k = k + 1;
    }
    let ghost mut gd = dir_model(entries@);
    assert(names_of(cur@) =~= model_names(gd));
    assert(all.subrange(0, all.len() as int) =~= all);
    let mut i: usize = 0;
    while i < ops.len()
        invariant
            i <= ops@.len(),
            all == ops_of(ops@),
            cur@.len() == gd.len(),
            names_of(cur@) == model_names(gd),
            runs_clean(dir_model(entries@), all) == runs_clean(gd, all.subrange(i as int, all.len() as int)),
        decreases ops@.len() - i,
    {
        let op = &ops[i];
        let ghost rest = all.subrange(i as int, all.len() as int);
        assert(rest[0] == (op.from@, op.to@));
        assert(rest.drop_first() =~= all.subrange(i + 1, all.len() as int));
        let from_present = holds_name(&cur, &op.from);
        let to_present = holds_name(&cur, &op.to);
        proof {
            if from_present {
                let j = choose|j: int| 0 <= j < cur@.len() && cur@[j]@ == op.from@;
                assert(names_of(cur@)[j] == gd[j].0);
            }
            if has_name(gd, op.from@) {
                let j = choose|j: int| 0 <= j < gd.len() && gd[j].0 == op.from@;
                assert(names_of(cur@)[j] == gd[j].0);
            }
            if to_present {
                let j = choose|j: int| 0 <= j < cur@.len() && cur@[j]@ == op.to@;
                assert(names_of(cur@)[j] == gd[j].0);
            }
            if has_name(gd, op.to@) {
                let j = choose|j: int| 0 <= j < gd.len() && gd[j].0 == op.to@;
                assert(names_of(cur@)[j] == gd[j].0);
            }
        }
        if !from_present || to_present {
            return false;
        }
        let ghost next = apply_op(gd, (op.from@, op.to@));
        let mut j: usize = 0;
        while j < cur.len()
            invariant
                j <= cur@.len(),
                cur@.len() == gd.len(),
                next == apply_op(gd, (op.from@, op.to@)),
                forall|t: int| 0 <= t < j ==> #[trigger] cur@[t]@ == model_names(next)[t],
                forall|t: int| j <= t < cur@.len() ==> #[trigger] cur@[t]@ == model_names(gd)[t],
            decreases cur@.len() - j,
        {
            if cur[j] == op.from {
                cur.set(j, op.to.clone());
            }
            j = j + 1;
        }
        proof {
            gd = next;
        }
        assert(names_of(cur@) =~= model_names(gd));
        i = i + 1;
    }
    true
}

/// The renames of one pass: the managed files of `entries`, in ascending
/// order, take the indices `start`, `start + 1`, ... under `prefix`. Fails
/// with `IndexOutOfRange` when the last index would be above 9999, and with
/// `Collision` when the listing repeats a name, or a step would find its
/// source missing or its target taken.
pub fn plan_phase(entries: &Vec<DirEntry>, exts: &ExtensionSet, prefix: &str, start: u32) -> (r: Result<Vec<RenameOp>, RenameError>)
    ensures
        phase_outcome(dir_model(entries@), exts@, prefix@, start, r),
{
    let files = list_managed_files(entries, exts);
    let ops = match _rename_all_photos(&files, prefix, start) {
        Ok(ops) => ops,
        Err(e) => return Err(e),
    };
    if !names_distinct(entries) || !check_plan(entries, &ops) {
        return Err(RenameError::Collision);
    }
    Ok(ops)
}

/// An ASCII letter or digit.
pub open spec fn is_alphanumeric(c: char) -> bool {
    ('a' <= c && c <= 'z') || ('A' <= c && c <= 'Z') || ('0' <= c && c <= '9')
}

/// Length of the staging prefix of the first pass.
pub const STAGING_PREFIX_LEN: usize = 6;

/// Relies on rand's `Alphanumeric::sample_string` with the thread-local
/// generator: `len` characters, each drawn from A-Z, a-z and 0-9.
#[verifier::external_body]
fn random_alphanumeric(len: usize) -> (r: String)
    ensures
        r@.len() == len,
        forall|i: int| 0 <= i < len ==> is_alphanumeric(#[trigger] r@[i]),
{
    Alphanumeric.sample_string(&mut rand::rng(), len)
}

/// The first pass of a batch rename: draws a random staging prefix of six
/// letters and digits and plans the renames that move every managed file to
/// it, numbered from `start`. Returns the prefix and the plan.
pub fn plan_staging_phase(entries: &Vec<DirEntry>, exts: &ExtensionSet, start: u32) -> (r: (String, Result<Vec<RenameOp>, RenameError>))
    ensures
        r.0@.len() == STAGING_PREFIX_LEN,
        forall|i: int| 0 <= i < r.0@.len() ==> is_alphanumeric(#[trigger] r.0@[i]),
        phase_outcome(dir_model(entries@), exts@, r.0@, start, r.1),
{
    let staging = random_alphanumeric(STAGING_PREFIX_LEN);
    let plan = plan_phase(entries, exts, staging.as_str(), start);
    (staging, plan)
}

/// One rename keeps names distinct when its source is present and its
/// target is free.
pub(crate) proof fn lemma_step_keeps_distinct(d: DirModel, op: (Seq<char>, Seq<char>))
    requires
        distinct_names(d),
        has_name(d, op.0),
        !has_name(d, op.1),
    ensures
        distinct_names(apply_op(d, op)),
        apply_op(d, op).len() == d.len(),
{
    let d2 = apply_op(d, op);
    assert forall|i: int, j: int| 0 <= i < j < d2.len() implies d2[i].0 != d2[j].0 by {
        if d[i].0 == op.0 {
            assert(d[j].0 != op.0);
            assert(d[j].0 != op.1);
        } else if d[j].0 == op.0 {
            assert(d[i].0 != op.1);
        }
    }
}

/// No transient collision: carrying out a plan that runs clean on a
/// directory whose names are distinct (both of which `plan_phase` guarantees
/// when it succeeds) keeps the names distinct after every step.
pub proof fn lemma_no_transient_collision(d: DirModel, ops: Seq<(Seq<char>, Seq<char>)>, n: int)
    requires
        distinct_names(d),
        runs_clean(d, ops),
        0 <= n <= ops.len(),
    ensures
        distinct_names(apply_ops(d, ops.take(n))),
    decreases n,
{
    if n > 0 {
        lemma_step_keeps_distinct(d, ops[0]);
        lemma_no_transient_collision(apply_op(d, ops[0]), ops.drop_first(), n - 1);
        assert(ops.take(n).drop_first() =~= ops.drop_first().take(n - 1));
        assert(ops.take(n)[0] == ops[0]);
    } else {
        assert(ops.take(n) =~= Seq::<(Seq<char>, Seq<char>)>::empty());
    }
}

} // verus!
