//! Static scheduling of systems from what they read and write: the grouping of systems into
//! stages of systems that may run side by side, and the dependency graph between systems.
//!
//! A system is described by the names of the component types it reads and those it writes.
use vstd::prelude::*;

verus! {

/// The names of the component types a system reads, and those it writes.
pub type Accesses = (Vec<String>, Vec<String>);

/// The accesses of every system, in the order the systems were added.
pub type SystemParametersVec = Vec<Accesses>;

/// A group of systems, each given by its index and its accesses.
pub type EnumeratedSystemParametersVec = Vec<(usize, Accesses)>;

/// Whether `name` occurs in `names`.
pub open spec fn mentions(names: Seq<String>, name: Seq<char>) -> bool {
    exists|i: int| 0 <= i < names.len() && (#[trigger] names[i])@ == name
}

/// Whether a system with accesses `earlier` writes one of `names`.
pub open spec fn writes_any_of(earlier: Accesses, names: Seq<String>) -> bool {
    exists|i: int| 0 <= i < names.len() && #[trigger] mentions(earlier.1@, names[i]@)
}

/// Whether a system with accesses `earlier` reads one of `names`.
pub open spec fn reads_any_of(earlier: Accesses, names: Seq<String>) -> bool {
    exists|i: int| 0 <= i < names.len() && #[trigger] mentions(earlier.0@, names[i]@)
}

/// A system with accesses `current` cannot share a stage with one with accesses `earlier`
/// when either writes a component type that the other reads or writes.
pub open spec fn accesses_conflict(current: Accesses, earlier: Accesses) -> bool {
    writes_any_of(earlier, current.0@) || writes_any_of(earlier, current.1@) || reads_any_of(
        earlier,
        current.1@,
    )
}

/// Some name of `names` occurs in `others`.
spec fn shares(others: Seq<String>, names: Seq<String>) -> bool {
    exists|i: int| 0 <= i < names.len() && #[trigger] mentions(others, names[i]@)
}

/// Sharing a name goes both ways.
proof fn lemma_shares_symmetric(a: Seq<String>, b: Seq<String>)
    ensures
        shares(a, b) == shares(b, a),
{
    if shares(a, b) {
        let i = choose|i: int| 0 <= i < b.len() && #[trigger] mentions(a, b[i]@);
        let j = choose|j: int| 0 <= j < a.len() && (#[trigger] a[j])@ == b[i]@;
        assert(mentions(b, a[j]@));
    }
    if shares(b, a) {
        let i = choose|i: int| 0 <= i < a.len() && #[trigger] mentions(b, a[i]@);
        let j = choose|j: int| 0 <= j < b.len() && (#[trigger] b[j])@ == a[i]@;
        assert(mentions(a, b[j]@));
    }
}

/// Conflicting goes both ways: two systems conflict exactly when one of them writes a
/// component type that the other reads or writes, whichever of them came first.
pub proof fn lemma_conflict_symmetric(a: Accesses, b: Accesses)
    ensures
        accesses_conflict(a, b) == accesses_conflict(b, a),
{
    lemma_shares_symmetric(b.1@, a.0@);
    lemma_shares_symmetric(b.1@, a.1@);
    lemma_shares_symmetric(b.0@, a.1@);
    assert(writes_any_of(b, a.0@) == shares(b.1@, a.0@));
    assert(writes_any_of(b, a.1@) == shares(b.1@, a.1@));
    assert(reads_any_of(b, a.1@) == shares(b.0@, a.1@));
    assert(writes_any_of(a, b.0@) == shares(a.1@, b.0@));
    assert(writes_any_of(a, b.1@) == shares(a.1@, b.1@));
    assert(reads_any_of(a, b.1@) == shares(a.0@, b.1@));
}

/// Two accesses name the same component types in the same order.
pub open spec fn same_accesses(a: Accesses, b: Accesses) -> bool {
    a.0@ == b.0@ && a.1@ == b.1@
}

/// The system index at position `p` of stage `k`.
pub open spec fn entry(stages: Seq<EnumeratedSystemParametersVec>, k: int, p: int) -> int {
    stages[k]@[p].0 as int
}

/// System `j` stands somewhere in `stages`.
pub open spec fn placed(stages: Seq<EnumeratedSystemParametersVec>, j: int) -> bool {
    exists|k: int, p: int|
        #![trigger entry(stages, k, p)]
        0 <= k < stages.len() && 0 <= p < stages[k]@.len() && entry(stages, k, p) == j
}

/// Stage `k` holds a system that comes before system `x` and that `x` conflicts with.
pub open spec fn stage_blocks(
    stages: Seq<EnumeratedSystemParametersVec>,
    params: Seq<Accesses>,
    k: int,
    x: int,
) -> bool {
    exists|p: int|
        #![trigger entry(stages, k, p)]
        0 <= p < stages[k]@.len() && entry(stages, k, p) < x && accesses_conflict(
            params[x],
            params[entry(stages, k, p)],
        )
}

/// `stages` places each of the first `n` systems of `params` exactly once, each stage in the
/// order of the systems, the stages in the order in which their first system came, and each
/// system in the first stage none of whose earlier systems it conflicts with.
pub open spec fn is_first_fit_staging(
    stages: Seq<EnumeratedSystemParametersVec>,
    params: Seq<Accesses>,
    n: int,
) -> bool {
    &&& forall|k: int| 0 <= k < stages.len() ==> #[trigger] stages[k]@.len() > 0
    &&& forall|k: int, p: int|
        #![trigger entry(stages, k, p)]
        0 <= k < stages.len() && 0 <= p < stages[k]@.len() ==> {
            &&& 0 <= entry(stages, k, p) < n
            &&& same_accesses(stages[k]@[p].1, params[entry(stages, k, p)])
        }
    &&& forall|i: int| 0 <= i < n ==> #[trigger] placed(stages, i)
    &&& forall|k1: int, p1: int, k2: int, p2: int|
        #![trigger entry(stages, k1, p1), entry(stages, k2, p2)]
        0 <= k1 < stages.len() && 0 <= p1 < stages[k1]@.len() && 0 <= k2 < stages.len() && 0
            <= p2 < stages[k2]@.len() && entry(stages, k1, p1) == entry(stages, k2, p2) ==> k1
            == k2 && p1 == p2
    &&& forall|k: int, p: int, q: int|
        #![trigger entry(stages, k, p), entry(stages, k, q)]
        0 <= k < stages.len() && 0 <= p < q < stages[k]@.len() ==> entry(stages, k, p) < entry(
            stages,
            k,
            q,
        ) && !accesses_conflict(params[entry(stages, k, q)], params[entry(stages, k, p)])
    &&& forall|k1: int, k2: int|
        #![trigger entry(stages, k1, 0), entry(stages, k2, 0)]
        0 <= k1 < k2 < stages.len() ==> entry(stages, k1, 0) < entry(stages, k2, 0)
    &&& forall|k: int, q: int, k2: int|
        0 <= k2 < k < stages.len() && 0 <= q < stages[k]@.len() ==> #[trigger] stage_blocks(
            stages,
            params,
            k2,
            entry(stages, k, q),
        )
}

/// Every stage of `old` is a prefix of the stage at the same position in `new`, and `new`
/// has at least as many stages.
pub open spec fn extends_stages(
    old: Seq<EnumeratedSystemParametersVec>,
    new: Seq<EnumeratedSystemParametersVec>,
) -> bool {
    &&& old.len() <= new.len()
    &&& forall|k: int|
        0 <= k < old.len() ==> old[k]@.len() <= (#[trigger] new[k])@.len() && forall|p: int|
            0 <= p < old[k]@.len() ==> #[trigger] new[k]@[p] == old[k]@[p]
}

/// What an extension of the stages keeps: where each old system stands, and which stages
/// block which systems.
proof fn lemma_extension_keeps(
    old: Seq<EnumeratedSystemParametersVec>,
    new: Seq<EnumeratedSystemParametersVec>,
    params: Seq<Accesses>,
)
    requires
        extends_stages(old, new),
    ensures
        forall|k: int, p: int|
            0 <= k < old.len() && 0 <= p < old[k]@.len() ==> #[trigger] entry(new, k, p) == entry(
                old,
                k,
                p,
            ) && new[k]@[p] == old[k]@[p],
        forall|j: int| #[trigger] placed(old, j) ==> placed(new, j),
        forall|k: int, x: int|
            0 <= k < old.len() && #[trigger] stage_blocks(old, params, k, x) ==> stage_blocks(
                new,
                params,
                k,
                x,
            ),
{
    assert forall|k: int, p: int| 0 <= k < old.len() && 0 <= p < old[k]@.len() implies #[trigger] entry(
        new,
        k,
        p,
    ) == entry(old, k, p) && new[k]@[p] == old[k]@[p] by {
        assert(new[k]@[p] == old[k]@[p]);
    }
    assert forall|j: int| #[trigger] placed(old, j) implies placed(new, j) by {
        let (k, p) = choose|k: int, p: int|
            #![trigger entry(old, k, p)]
            0 <= k < old.len() && 0 <= p < old[k]@.len() && entry(old, k, p) == j;
        assert(entry(new, k, p) == j);
    }
    assert forall|k: int, x: int|
        0 <= k < old.len() && #[trigger] stage_blocks(old, params, k, x) implies stage_blocks(
        new,
        params,
        k,
        x,
    ) by {
        let p = choose|p: int|
            #![trigger entry(old, k, p)]
            0 <= p < old[k]@.len() && entry(old, k, p) < x && accesses_conflict(
                params[x],
                params[entry(old, k, p)],
            );
        assert(entry(new, k, p) == entry(old, k, p));
    }
}

/// Whether `name` occurs in `names`.
fn contains_name(names: &Vec<String>, name: &String) -> (r: bool)
    ensures
        r == mentions(names@, name@),
{
    let mut i: usize = 0;
    while i < names.len()
        invariant
            i <= names.len(),
            forall|j: int| 0 <= j < i ==> (#[trigger] names@[j])@ != name@,
        decreases names.len() - i,
    {
        if names[i] == *name {
            return true;
        }
        i = i + 1;
    }
    false
}

/// Whether the system with accesses `earlier` writes one of `names`.
fn writes_one_of(earlier: &Accesses, names: &Vec<String>) -> (r: bool)
    ensures
        r == writes_any_of(*earlier, names@),
{
    let mut i: usize = 0;
    while i < names.len()
        invariant
            i <= names.len(),
            forall|j: int| 0 <= j < i ==> !(#[trigger] mentions(earlier.1@, names@[j]@)),
        decreases names.len() - i,
    {
        if contains_name(&earlier.1, &names[i]) {
            return true;
        }
        i = i + 1;
    }
    false
}

/// Whether the system with accesses `earlier` reads one of `names`.
fn reads_one_of(earlier: &Accesses, names: &Vec<String>) -> (r: bool)
    ensures
        r == reads_any_of(*earlier, names@),
{
    let mut i: usize = 0;
    while i < names.len()
        invariant
            i <= names.len(),
            forall|j: int| 0 <= j < i ==> !(#[trigger] mentions(earlier.0@, names@[j]@)),
        decreases names.len() - i,
    {
        if contains_name(&earlier.0, &names[i]) {
            return true;
        }
        i = i + 1;
    }
    false
}

/// Whether a system with accesses `current` conflicts with one with accesses `earlier`: one
/// of them writes a component type that the other reads or writes.
pub fn conflicts_with(current: &Accesses, earlier: &Accesses) -> (r: bool)
    ensures
        r == accesses_conflict(*current, *earlier),
{
    writes_one_of(earlier, &current.0) || writes_one_of(earlier, &current.1) || reads_one_of(
        earlier,
        &current.1,
    )
}

/// A copy of a vector of names.
pub fn copy_names(names: &Vec<String>) -> (r: Vec<String>)
    ensures
        r@ == names@,
{
    let mut r: Vec<String> = Vec::new();
    let mut i: usize = 0;
    while i < names.len()
        invariant
            i <= names.len(),
            r@ == names@.subrange(0, i as int),
        decreases names.len() - i,
    {
        r.push(names[i].clone());
        i = i + 1;
    }
    assert(r@ == names@);
    r
}

/// A copy of the accesses of a system.
pub fn copy_accesses(accesses: &Accesses) -> (r: Accesses)
    ensures
        same_accesses(r, *accesses),
{
    (copy_names(&accesses.0), copy_names(&accesses.1))
}

/// Groups the systems into stages of independent systems.
///
/// Each system, in the order in which the systems were added, goes into the first stage none of
/// whose systems it conflicts with (one of the two writes a component type that the other
/// reads or writes); where there is none, it opens a new stage. So no two systems of a stage
/// conflict, in either order.
pub fn generate_stages(parameters: SystemParametersVec) -> (stages: Vec<
    EnumeratedSystemParametersVec,
>)
    ensures
        is_first_fit_staging(stages@, parameters@, parameters@.len() as int),
        forall|k: int, p: int, q: int|
            #![trigger entry(stages@, k, p), entry(stages@, k, q)]
            0 <= k < stages@.len() && 0 <= p < stages@[k]@.len() && 0 <= q < stages@[k]@.len()
                && p != q ==> !accesses_conflict(
                parameters@[entry(stages@, k, p)],
                parameters@[entry(stages@, k, q)],
            ),
{
    let mut stages: Vec<EnumeratedSystemParametersVec> = Vec::new();
    let mut i: usize = 0;
    while i < parameters.len()
        invariant
            i <= parameters.len(),
            is_first_fit_staging(stages@, parameters@, i as int),
        decreases parameters.len() - i,
    {
        let current = &parameters[i];
        let mut target: usize = 0;
        let mut found = false;
        while target < stages.len()
            invariant_except_break
                !found,
            invariant
                target <= stages.len(),
                current == parameters@[i as int],
                i < parameters.len(),
                is_first_fit_staging(stages@, parameters@, i as int),
                forall|k2: int|
                    0 <= k2 < target ==> #[trigger] stage_blocks(
                        stages@,
                        parameters@,
                        k2,
                        i as int,
                    ),
            ensures
                found ==> target < stages.len() && forall|p: int|
                    0 <= p < stages@[target as int]@.len() ==> !accesses_conflict(
                        parameters@[i as int],
                        parameters@[#[trigger] entry(stages@, target as int, p)],
                    ),
                !found ==> target == stages.len(),
            decreases stages.len() - target,
        {
            let stage = &stages[target];
            let mut p: usize = 0;
            let mut conflict = false;
            while p < stage.len()
                invariant_except_break
                    !conflict,
                invariant
                    p <= stage.len(),
                    stage == stages@[target as int],
                    target < stages.len(),
                    current == parameters@[i as int],
                    i < parameters.len(),
                    is_first_fit_staging(stages@, parameters@, i as int),
                    forall|p2: int|
                        0 <= p2 < p ==> !accesses_conflict(
                            parameters@[i as int],
                            parameters@[#[trigger] entry(stages@, target as int, p2)],
                        ),
                ensures
                    conflict ==> stage_blocks(stages@, parameters@, target as int, i as int),
                    !conflict ==> p == stage.len(),
                decreases stage.len() - p,
            {
                assert(0 <= entry(stages@, target as int, p as int) < i);
                let other = &parameters[stage[p].0];
                if conflicts_with(current, other) {
                    conflict = true;
                    break;
                }
                p = p + 1;
            }
            if !conflict {
                found = true;
                break;
            }
            target = target + 1;
        }
        let item = (i, copy_accesses(current));
        let ghost old_stages = stages@;
        if found {
            stages[target].push(item);
            proof {
                lemma_staging_after_join(old_stages, stages@, parameters@, i as int, target as int);
            }
        } else {
            let mut fresh: EnumeratedSystemParametersVec = Vec::new();
            fresh.push(item);
            stages.push(fresh);
            proof {
                lemma_staging_after_open(old_stages, stages@, parameters@, i as int);
            }
        }
        i = i + 1;
    }
    proof {
        let st = stages@;
        let ps = parameters@;
        assert forall|k: int, p: int, q: int|
            #![trigger entry(st, k, p), entry(st, k, q)]
            0 <= k < st.len() && 0 <= p < st[k]@.len() && 0 <= q < st[k]@.len() && p != q
            implies !accesses_conflict(ps[entry(st, k, p)], ps[entry(st, k, q)]) by {
            lemma_conflict_symmetric(ps[entry(st, k, p)], ps[entry(st, k, q)]);
        }
    }
    stages
}

/// Putting system `i` at the end of stage `t`, where none of the stage's systems conflicts
/// with it and every earlier stage holds a system that does, keeps the staging first-fit.
proof fn lemma_staging_after_join(
    old_stages: Seq<EnumeratedSystemParametersVec>,
    stages: Seq<EnumeratedSystemParametersVec>,
    params: Seq<Accesses>,
    i: int,
    t: int,
)
    requires
        0 <= i < params.len(),
        is_first_fit_staging(old_stages, params, i),
        0 <= t < old_stages.len(),
        stages == old_stages.update(t, stages[t]),
        stages[t]@ == old_stages[t]@.push(stages[t]@.last()),
        stages[t]@.last().0 == i,
        same_accesses(stages[t]@.last().1, params[i]),
        forall|p: int|
            0 <= p < old_stages[t]@.len() ==> !accesses_conflict(
                params[i],
                params[#[trigger] entry(old_stages, t, p)],
            ),
        forall|k2: int| 0 <= k2 < t ==> #[trigger] stage_blocks(old_stages, params, k2, i),
    ensures
        is_first_fit_staging(stages, params, i + 1),
{
    let last = old_stages[t]@.len() as int;
    assert(extends_stages(old_stages, stages)) by {
        assert forall|k: int| 0 <= k < old_stages.len() implies old_stages[k]@.len() <= (
        #[trigger] stages[k])@.len() && forall|p: int|
            0 <= p < old_stages[k]@.len() ==> #[trigger] stages[k]@[p] == old_stages[k]@[p] by {
            if k == t {
                assert forall|p: int| 0 <= p < old_stages[k]@.len() implies #[trigger] stages[k]@[p]
                    == old_stages[k]@[p] by {
                    assert(stages[t]@[p] == old_stages[t]@.push(stages[t]@.last())[p]);
                }
            }
        }
    }
    lemma_extension_keeps(old_stages, stages, params);
    assert(entry(stages, t, last) == i);
    assert forall|j: int| 0 <= j < i + 1 implies #[trigger] placed(stages, j) by {
        if j == i {
            assert(entry(stages, t, last) == j);
        } else {
            assert(placed(old_stages, j));
        }
    }
    assert forall|k: int, q: int, k2: int|
        0 <= k2 < k < stages.len() && 0 <= q < stages[k]@.len() implies #[trigger] stage_blocks(
        stages,
        params,
        k2,
        entry(stages, k, q),
    ) by {
        if k == t && q == last {
            assert(stage_blocks(old_stages, params, k2, i));
        } else {
            assert(entry(stages, k, q) == entry(old_stages, k, q));
            assert(stage_blocks(old_stages, params, k2, entry(old_stages, k, q)));
        }
    }
    assert forall|k1: int, p1: int, k2: int, p2: int|
        #![trigger entry(stages, k1, p1), entry(stages, k2, p2)]
        0 <= k1 < stages.len() && 0 <= p1 < stages[k1]@.len() && 0 <= k2 < stages.len() && 0
            <= p2 < stages[k2]@.len() && entry(stages, k1, p1) == entry(
            stages,
            k2,
            p2,
        ) implies k1 == k2 && p1 == p2 by {
        if !(k1 == t && p1 == last) && !(k2 == t && p2 == last) {
            assert(entry(stages, k1, p1) == entry(old_stages, k1, p1));
            assert(entry(stages, k2, p2) == entry(old_stages, k2, p2));
        } else if k1 == t && p1 == last && !(k2 == t && p2 == last) {
            assert(entry(stages, k2, p2) == entry(old_stages, k2, p2));
        } else if k2 == t && p2 == last && !(k1 == t && p1 == last) {
            assert(entry(stages, k1, p1) == entry(old_stages, k1, p1));
        }
    }
    assert forall|k: int, p: int, q: int|
        #![trigger entry(stages, k, p), entry(stages, k, q)]
        0 <= k < stages.len() && 0 <= p < q < stages[k]@.len() implies entry(stages, k, p)
        < entry(stages, k, q) && !accesses_conflict(
        params[entry(stages, k, q)],
        params[entry(stages, k, p)],
    ) by {
        assert(entry(stages, k, p) == entry(old_stages, k, p));
        if !(k == t && q == last) {
            assert(entry(stages, k, q) == entry(old_stages, k, q));
        }
    }
    assert forall|k: int, p: int|
        #![trigger entry(stages, k, p)]
        0 <= k < stages.len() && 0 <= p < stages[k]@.len() implies 0 <= entry(stages, k, p) < i
        + 1 && same_accesses(stages[k]@[p].1, params[entry(stages, k, p)]) by {
        if !(k == t && p == last) {
            assert(entry(stages, k, p) == entry(old_stages, k, p));
        }
    }
    assert forall|k1: int, k2: int|
        #![trigger entry(stages, k1, 0), entry(stages, k2, 0)]
        0 <= k1 < k2 < stages.len() implies entry(stages, k1, 0) < entry(stages, k2, 0) by {
        assert(entry(stages, k1, 0) == entry(old_stages, k1, 0));
        assert(entry(stages, k2, 0) == entry(old_stages, k2, 0));
    }
    assert forall|k: int| 0 <= k < stages.len() implies #[trigger] stages[k]@.len() > 0 by {
        assert(old_stages[k]@.len() > 0);
    }
}

/// Opening a new stage for system `i`, when every existing stage holds a system that it
/// conflicts with, keeps the staging first-fit.
proof fn lemma_staging_after_open(
    old_stages: Seq<EnumeratedSystemParametersVec>,
    stages: Seq<EnumeratedSystemParametersVec>,
    params: Seq<Accesses>,
    i: int,
)
    requires
        0 <= i < params.len(),
        is_first_fit_staging(old_stages, params, i),
        stages == old_stages.push(stages.last()),
        stages.last()@.len() == 1,
        stages.last()@[0].0 == i,
        same_accesses(stages.last()@[0].1, params[i]),
        forall|k2: int|
            0 <= k2 < old_stages.len() ==> #[trigger] stage_blocks(old_stages, params, k2, i),
    ensures
        is_first_fit_staging(stages, params, i + 1),
{
    let last = old_stages.len() as int;
    assert(extends_stages(old_stages, stages)) by {
        assert forall|k: int| 0 <= k < old_stages.len() implies old_stages[k]@.len() <= (
        #[trigger] stages[k])@.len() && forall|p: int|
            0 <= p < old_stages[k]@.len() ==> #[trigger] stages[k]@[p] == old_stages[k]@[p] by {
            assert(stages[k] == old_stages[k]);
        }
    }
    lemma_extension_keeps(old_stages, stages, params);
    assert(entry(stages, last, 0) == i);
    assert forall|j: int| 0 <= j < i + 1 implies #[trigger] placed(stages, j) by {
        if j == i {
            assert(entry(stages, last, 0) == j);
        } else {
            assert(placed(old_stages, j));
        }
    }
    assert forall|k: int, q: int, k2: int|
        0 <= k2 < k < stages.len() && 0 <= q < stages[k]@.len() implies #[trigger] stage_blocks(
        stages,
        params,
        k2,
        entry(stages, k, q),
    ) by {
        if k == last {
            assert(stage_blocks(old_stages, params, k2, i));
        } else {
            assert(entry(stages, k, q) == entry(old_stages, k, q));
            assert(stage_blocks(old_stages, params, k2, entry(old_stages, k, q)));
        }
    }
    assert forall|k1: int, p1: int, k2: int, p2: int|
        #![trigger entry(stages, k1, p1), entry(stages, k2, p2)]
        0 <= k1 < stages.len() && 0 <= p1 < stages[k1]@.len() && 0 <= k2 < stages.len() && 0
            <= p2 < stages[k2]@.len() && entry(stages, k1, p1) == entry(
            stages,
            k2,
            p2,
        ) implies k1 == k2 && p1 == p2 by {
        if k1 < last {
            assert(entry(stages, k1, p1) == entry(old_stages, k1, p1));
        }
        if k2 < last {
            assert(entry(stages, k2, p2) == entry(old_stages, k2, p2));
        }
    }
    assert forall|k: int, p: int, q: int|
        #![trigger entry(stages, k, p), entry(stages, k, q)]
        0 <= k < stages.len() && 0 <= p < q < stages[k]@.len() implies entry(stages, k, p)
        < entry(stages, k, q) && !accesses_conflict(
        params[entry(stages, k, q)],
        params[entry(stages, k, p)],
    ) by {
        assert(entry(stages, k, p) == entry(old_stages, k, p));
        assert(entry(stages, k, q) == entry(old_stages, k, q));
    }
    assert forall|k: int, p: int|
        #![trigger entry(stages, k, p)]
        0 <= k < stages.len() && 0 <= p < stages[k]@.len() implies 0 <= entry(stages, k, p) < i
        + 1 && same_accesses(stages[k]@[p].1, params[entry(stages, k, p)]) by {
        if k < last {
            assert(entry(stages, k, p) == entry(old_stages, k, p));
        }
    }
    assert forall|k1: int, k2: int|
        #![trigger entry(stages, k1, 0), entry(stages, k2, 0)]
        0 <= k1 < k2 < stages.len() implies entry(stages, k1, 0) < entry(stages, k2, 0) by {
        assert(entry(stages, k1, 0) == entry(old_stages, k1, 0));
        if k2 < last {
            assert(entry(stages, k2, 0) == entry(old_stages, k2, 0));
        }
    }
    assert forall|k: int| 0 <= k < stages.len() implies #[trigger] stages[k]@.len() > 0 by {
        if k < last {
            assert(old_stages[k]@.len() > 0);
        }
    }
}

} // verus!
