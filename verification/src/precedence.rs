//! The precedence of systems, from the component types they read and write: a system that
//! writes a component type precedes the systems that read it.
use crate::access::ComponentAccessDescriptor;
use crate::type_key::same_type;
use std::cmp::Ordering;
use vstd::prelude::*;

verus! {

/// The pairs of `x` with each access in `others` to the same component type, in order.
pub open spec fn overlapping_row(
    x: ComponentAccessDescriptor,
    others: Seq<ComponentAccessDescriptor>,
) -> Seq<(ComponentAccessDescriptor, ComponentAccessDescriptor)>
    decreases others.len(),
{
    if others.len() == 0 {
        seq![]
    } else {
        overlapping_row(x, others.drop_last()) + if x.type_of() == others.last().type_of() {
            seq![(x, others.last())]
        } else {
            seq![]
        }
    }
}

/// The pairs of an access in `accesses` and one in `others` to the same component type, in
/// the order of the pairs of the cartesian product.
pub open spec fn overlapping(
    accesses: Seq<ComponentAccessDescriptor>,
    others: Seq<ComponentAccessDescriptor>,
) -> Seq<(ComponentAccessDescriptor, ComponentAccessDescriptor)>
    decreases accesses.len(),
{
    if accesses.len() == 0 {
        seq![]
    } else {
        overlapping(accesses.drop_last(), others) + overlapping_row(accesses.last(), others)
    }
}

/// Some access of `accesses` and some of `others` are to the same component type.
pub open spec fn any_overlap(
    accesses: Seq<ComponentAccessDescriptor>,
    others: Seq<ComponentAccessDescriptor>,
) -> bool {
    exists|i: int, j: int|
        #![trigger accesses[i], others[j]]
        0 <= i < accesses.len() && 0 <= j < others.len() && accesses[i].type_of()
            == others[j].type_of()
}

/// Both systems read some common component type.
pub open spec fn overlap_both_read(
    accesses: Seq<ComponentAccessDescriptor>,
    others: Seq<ComponentAccessDescriptor>,
) -> bool {
    exists|i: int, j: int|
        #![trigger accesses[i], others[j]]
        0 <= i < accesses.len() && 0 <= j < others.len() && accesses[i].type_of()
            == others[j].type_of() && accesses[i] is Read && others[j] is Read
}

/// The other system writes some common component type.
pub open spec fn overlap_other_writes(
    accesses: Seq<ComponentAccessDescriptor>,
    others: Seq<ComponentAccessDescriptor>,
) -> bool {
    exists|i: int, j: int|
        #![trigger accesses[i], others[j]]
        0 <= i < accesses.len() && 0 <= j < others.len() && accesses[i].type_of()
            == others[j].type_of() && others[j] is Write
}

/// The system writes some common component type that the other reads.
pub open spec fn overlap_other_reads(
    accesses: Seq<ComponentAccessDescriptor>,
    others: Seq<ComponentAccessDescriptor>,
) -> bool {
    exists|i: int, j: int|
        #![trigger accesses[i], others[j]]
        0 <= i < accesses.len() && 0 <= j < others.len() && accesses[i].type_of()
            == others[j].type_of() && accesses[i] is Write && others[j] is Read
}

/// The precedence of a system with accesses `accesses` relative to one with accesses
/// `others`: equal when they access no common component type or both read one; greater
/// (it comes after) when the other writes one of them; less (it comes first) when it writes
/// one that the other reads.
pub open spec fn precedence_of(
    accesses: Seq<ComponentAccessDescriptor>,
    others: Seq<ComponentAccessDescriptor>,
) -> Option<Ordering> {
    if !any_overlap(accesses, others) {
        Some(Ordering::Equal)
    } else if overlap_both_read(accesses, others) {
        Some(Ordering::Equal)
    } else if overlap_other_writes(accesses, others) {
        Some(Ordering::Greater)
    } else if overlap_other_reads(accesses, others) {
        Some(Ordering::Less)
    } else {
        None
    }
}

/// A pair is in the row of `x` exactly when its second access is one of `others` to the
/// same component type.
proof fn lemma_row_members(
    x: ComponentAccessDescriptor,
    others: Seq<ComponentAccessDescriptor>,
)
    ensures
        forall|k: int|
            0 <= k < overlapping_row(x, others).len() ==> (#[trigger] overlapping_row(x, others)[k]).0
                == x && others.contains(overlapping_row(x, others)[k].1) && x.type_of()
                == overlapping_row(x, others)[k].1.type_of(),
        forall|j: int|
            0 <= j < others.len() && x.type_of() == others[j].type_of() ==> overlapping_row(
                x,
                others,
            ).contains((x, #[trigger] others[j])),
    decreases others.len(),
{
    let row = overlapping_row(x, others);
    if others.len() > 0 {
        let rest = others.drop_last();
        lemma_row_members(x, rest);
        let front = overlapping_row(x, rest);
        let tail = if x.type_of() == others.last().type_of() {
            seq![(x, others.last())]
        } else {
            seq![]
        };
        assert(row == front + tail);
        assert forall|k: int| 0 <= k < row.len() implies (#[trigger] row[k]).0 == x
            && others.contains(row[k].1) && x.type_of() == row[k].1.type_of() by {
            if k < front.len() {
                assert(row[k] == front[k]);
                let j = choose|j: int| 0 <= j < rest.len() && rest[j] == front[k].1;
                assert(others[j] == rest[j]);
            } else {
                assert(row[k] == (x, others[others.len() - 1]));
            }
        }
        assert forall|j: int|
            0 <= j < others.len() && x.type_of() == others[j].type_of() implies row.contains(
            (x, #[trigger] others[j]),
        ) by {
            if j < rest.len() {
                assert(rest[j] == others[j]);
                assert(front.contains((x, rest[j])));
                let k = choose|k: int| 0 <= k < front.len() && front[k] == (x, rest[j]);
                assert(row[k] == (x, others[j]));
            } else {
                assert(row[row.len() - 1] == (x, others[j]));
            }
        }
    } else {
        assert(row.len() == 0);
    }
}

/// A pair is in `overlapping(accesses, others)` exactly when it pairs an access of
/// `accesses` with one of `others` to the same component type.
pub proof fn lemma_overlapping_members(
    accesses: Seq<ComponentAccessDescriptor>,
    others: Seq<ComponentAccessDescriptor>,
)
    ensures
        forall|k: int|
            0 <= k < overlapping(accesses, others).len() ==> accesses.contains(
                (#[trigger] overlapping(accesses, others)[k]).0,
            ) && others.contains(overlapping(accesses, others)[k].1) && overlapping(
                accesses,
                others,
            )[k].0.type_of() == overlapping(accesses, others)[k].1.type_of(),
        forall|i: int, j: int|
            0 <= i < accesses.len() && 0 <= j < others.len() && accesses[i].type_of()
                == others[j].type_of() ==> overlapping(accesses, others).contains(
                (#[trigger] accesses[i], #[trigger] others[j]),
            ),
    decreases accesses.len(),
{
    let all = overlapping(accesses, others);
    if accesses.len() > 0 {
        let rest = accesses.drop_last();
        let x = accesses.last();
        lemma_overlapping_members(rest, others);
        lemma_row_members(x, others);
        let front = overlapping(rest, others);
        let row = overlapping_row(x, others);
        assert(all == front + row);
        assert forall|k: int| 0 <= k < all.len() implies accesses.contains((#[trigger] all[k]).0)
            && others.contains(all[k].1) && all[k].0.type_of() == all[k].1.type_of() by {
            if k < front.len() {
                assert(all[k] == front[k]);
                let i = choose|i: int| 0 <= i < rest.len() && rest[i] == front[k].0;
                assert(accesses[i] == rest[i]);
            } else {
                assert(all[k] == row[k - front.len()]);
                assert(accesses[accesses.len() - 1] == x);
            }
        }
        assert forall|i: int, j: int|
            0 <= i < accesses.len() && 0 <= j < others.len() && accesses[i].type_of()
                == others[j].type_of() implies all.contains(
            (#[trigger] accesses[i], #[trigger] others[j]),
        ) by {
            if i < rest.len() {
                assert(rest[i] == accesses[i]);
                assert(front.contains((rest[i], others[j])));
                let k = choose|k: int| 0 <= k < front.len() && front[k] == (rest[i], others[j]);
                assert(all[k] == (accesses[i], others[j]));
            } else {
                assert(row.contains((x, others[j])));
                let k = choose|k: int| 0 <= k < row.len() && row[k] == (x, others[j]);
                assert(all[front.len() + k] == (accesses[i], others[j]));
            }
        }
    } else {
        assert(all.len() == 0);
    }
}

/// The pairs of an access of `components` and an access of `other_components` to the same
/// component type, in the order of the cartesian product.
pub fn find_overlapping_component_accesses(
    components: &Vec<ComponentAccessDescriptor>,
    other_components: &Vec<ComponentAccessDescriptor>,
) -> (r: Vec<(ComponentAccessDescriptor, ComponentAccessDescriptor)>)
    ensures
        r@ == overlapping(components@, other_components@),
{
    let mut result: Vec<(ComponentAccessDescriptor, ComponentAccessDescriptor)> = Vec::new();
    let mut i: usize = 0;
    while i < components.len()
        invariant
            i <= components.len(),
            result@ == overlapping(components@.take(i as int), other_components@),
        decreases components.len() - i,
    {
        let a = &components[i];
        let mut j: usize = 0;
        while j < other_components.len()
            invariant
                i < components.len(),
                a == components@[i as int],
                j <= other_components.len(),
                result@ == overlapping(components@.take(i as int), other_components@)
                    + overlapping_row(*a, other_components@.take(j as int)),
            decreases other_components.len() - j,
        {
            let b = &other_components[j];
            let ghost before = result@;
            if same_type(&a.component_type(), &b.component_type()) {
                result.push((a.duplicate(), b.duplicate()));
            }
            proof {
                let taken = other_components@.take(j + 1);
                assert(taken.drop_last() == other_components@.take(j as int));
                assert(taken.last() == *b);
            }
            j = j + 1;
        }
        proof {
            assert(other_components@.take(other_components.len() as int) == other_components@);
            let taken = components@.take(i + 1);
            assert(taken.drop_last() == components@.take(i as int));
            assert(taken.last() == *a);
        }
        i = i + 1;
    }
    assert(components@.take(components.len() as int) == components@);
    result
}

/// The precedence of a system with accesses `components` relative to a system with accesses
/// `other_components`, as `precedence_of` describes.
pub fn precedence(
    components: &Vec<ComponentAccessDescriptor>,
    other_components: &Vec<ComponentAccessDescriptor>,
) -> (r: Option<Ordering>)
    ensures
        r == precedence_of(components@, other_components@),
{
    let overlapping_components = find_overlapping_component_accesses(components, other_components);
    proof {
        lemma_overlapping_members(components@, other_components@);
    }
    let ghost o = overlapping_components@;
    let ghost a = components@;
    let ghost b = other_components@;
    if overlapping_components.len() == 0 {
        proof {
            if any_overlap(a, b) {
                let (i, j) = choose|i: int, j: int|
                    #![trigger a[i], b[j]]
                    0 <= i < a.len() && 0 <= j < b.len() && a[i].type_of() == b[j].type_of();
                assert(o.contains((a[i], b[j])));
            }
        }
        return Some(Ordering::Equal);
    }
    proof {
        assert(a.contains(o[0].0) && b.contains(o[0].1));
        let i = choose|i: int| 0 <= i < a.len() && a[i] == o[0].0;
        let j = choose|j: int| 0 <= j < b.len() && b[j] == o[0].1;
        assert(a[i].type_of() == b[j].type_of());
        assert(any_overlap(a, b));
    }
    let mut k: usize = 0;
    let mut both_read = false;
    let mut other_writes = false;
    let mut other_reads = false;
    while k < overlapping_components.len()
        invariant
            o == overlapping_components@,
            k <= o.len(),
            both_read == exists|m: int| 0 <= m < k && (#[trigger] o[m]).0 is Read && o[m].1 is Read,
            other_writes == exists|m: int| 0 <= m < k && (#[trigger] o[m]).1 is Write,
            other_reads == exists|m: int| 0 <= m < k && (#[trigger] o[m]).0 is Write && o[m].1 is Read,
        decreases o.len() - k,
    {
        let (x, y) = (&overlapping_components[k].0, &overlapping_components[k].1);
        if x.is_read() && y.is_read() {
            both_read = true;
        }
        if y.is_write() {
            other_writes = true;
        }
        if x.is_write() && y.is_read() {
            other_reads = true;
        }
        k = k + 1;
    }
    proof {
        lemma_overlap_conditions(a, b, o);
    }
    if both_read {
        return Some(Ordering::Equal);
    }
    if other_writes {
        return Some(Ordering::Greater);
    }
    if other_reads {
        return Some(Ordering::Less);
    }
    None
}

/// The conditions on the overlapping pairs, stated over the two lists of accesses.
proof fn lemma_overlap_conditions(
    a: Seq<ComponentAccessDescriptor>,
    b: Seq<ComponentAccessDescriptor>,
    o: Seq<(ComponentAccessDescriptor, ComponentAccessDescriptor)>,
)
    requires
        o == overlapping(a, b),
    ensures
        (exists|m: int| 0 <= m < o.len() && (#[trigger] o[m]).0 is Read && o[m].1 is Read)
            == overlap_both_read(a, b),
        (exists|m: int| 0 <= m < o.len() && (#[trigger] o[m]).1 is Write) == overlap_other_writes(
            a,
            b,
        ),
        (exists|m: int| 0 <= m < o.len() && (#[trigger] o[m]).0 is Write && o[m].1 is Read)
            == overlap_other_reads(a, b),
{
    lemma_overlapping_members(a, b);
    if exists|m: int| 0 <= m < o.len() && (#[trigger] o[m]).0 is Read && o[m].1 is Read {
        let m = choose|m: int| 0 <= m < o.len() && (#[trigger] o[m]).0 is Read && o[m].1 is Read;
        assert(a.contains(o[m].0) && b.contains(o[m].1));
        let i = choose|i: int| 0 <= i < a.len() && a[i] == o[m].0;
        let j = choose|j: int| 0 <= j < b.len() && b[j] == o[m].1;
        assert(a[i].type_of() == b[j].type_of());
        assert(a[i] is Read && b[j] is Read);
    }
    if overlap_both_read(a, b) {
        let (i, j) = choose|i: int, j: int|
            #![trigger a[i], b[j]]
            0 <= i < a.len() && 0 <= j < b.len() && a[i].type_of() == b[j].type_of() && a[i] is Read && b[j] is Read;
        assert(o.contains((a[i], b[j])));
        let m = choose|m: int| 0 <= m < o.len() && o[m] == (a[i], b[j]);
        assert(o[m].0 is Read && o[m].1 is Read);
    }
    if exists|m: int| 0 <= m < o.len() && (#[trigger] o[m]).1 is Write {
        let m = choose|m: int| 0 <= m < o.len() && (#[trigger] o[m]).1 is Write;
        assert(a.contains(o[m].0) && b.contains(o[m].1));
        let i = choose|i: int| 0 <= i < a.len() && a[i] == o[m].0;
        let j = choose|j: int| 0 <= j < b.len() && b[j] == o[m].1;
        assert(a[i].type_of() == b[j].type_of());
        assert(b[j] is Write);
    }
    if overlap_other_writes(a, b) {
        let (i, j) = choose|i: int, j: int|
            #![trigger a[i], b[j]]
            0 <= i < a.len() && 0 <= j < b.len() && a[i].type_of() == b[j].type_of() && b[j] is Write;
        assert(o.contains((a[i], b[j])));
        let m = choose|m: int| 0 <= m < o.len() && o[m] == (a[i], b[j]);
        assert(o[m].1 is Write);
    }
    if exists|m: int| 0 <= m < o.len() && (#[trigger] o[m]).0 is Write && o[m].1 is Read {
        let m = choose|m: int| 0 <= m < o.len() && (#[trigger] o[m]).0 is Write && o[m].1 is Read;
        assert(a.contains(o[m].0) && b.contains(o[m].1));
        let i = choose|i: int| 0 <= i < a.len() && a[i] == o[m].0;
        let j = choose|j: int| 0 <= j < b.len() && b[j] == o[m].1;
        assert(a[i].type_of() == b[j].type_of());
        assert(a[i] is Write && b[j] is Read);
    }
    if overlap_other_reads(a, b) {
        let (i, j) = choose|i: int, j: int|
            #![trigger a[i], b[j]]
            0 <= i < a.len() && 0 <= j < b.len() && a[i].type_of() == b[j].type_of() && a[i] is Write && b[j] is Read;
        assert(o.contains((a[i], b[j])));
        let m = choose|m: int| 0 <= m < o.len() && o[m] == (a[i], b[j]);
        assert(o[m].0 is Write && o[m].1 is Read);
    }
}

/// Precedence reads the same both ways: two systems are of equal precedence in one order
/// exactly when they are in the other; when a system comes first relative to another, the
/// other comes after it; when it comes after, the other comes first or also after (both
/// write); and precedence is always defined.
pub proof fn lemma_precedence_reversal(
    a: Seq<ComponentAccessDescriptor>,
    b: Seq<ComponentAccessDescriptor>,
)
    ensures
        (precedence_of(a, b) == Some(Ordering::Equal)) == (precedence_of(b, a) == Some(
            Ordering::Equal,
        )),
        precedence_of(a, b) == Some(Ordering::Less) ==> precedence_of(b, a) == Some(
            Ordering::Greater,
        ),
        precedence_of(a, b) == Some(Ordering::Greater) ==> precedence_of(b, a) == Some(
            Ordering::Less,
        ) || precedence_of(b, a) == Some(Ordering::Greater),
        precedence_of(a, b) is Some,
{
    if any_overlap(a, b) {
        let (i, j) = choose|i: int, j: int|
            #![trigger a[i], b[j]]
            0 <= i < a.len() && 0 <= j < b.len() && a[i].type_of() == b[j].type_of();
        assert(any_overlap(b, a)) by {
            assert(b[j].type_of() == a[i].type_of());
        }
    }
    if any_overlap(b, a) {
        let (j, i) = choose|j: int, i: int|
            #![trigger b[j], a[i]]
            0 <= j < b.len() && 0 <= i < a.len() && b[j].type_of() == a[i].type_of();
        assert(any_overlap(a, b)) by {
            assert(a[i].type_of() == b[j].type_of());
        }
    }
    if overlap_both_read(a, b) {
        let (i, j) = choose|i: int, j: int|
            #![trigger a[i], b[j]]
            0 <= i < a.len() && 0 <= j < b.len() && a[i].type_of() == b[j].type_of() && a[i] is Read
                && b[j] is Read;
        assert(overlap_both_read(b, a)) by {
            assert(b[j].type_of() == a[i].type_of());
        }
    }
    if overlap_both_read(b, a) {
        let (j, i) = choose|j: int, i: int|
            #![trigger b[j], a[i]]
            0 <= j < b.len() && 0 <= i < a.len() && b[j].type_of() == a[i].type_of() && b[j] is Read
                && a[i] is Read;
        assert(overlap_both_read(a, b)) by {
            assert(a[i].type_of() == b[j].type_of());
        }
    }
    if overlap_other_reads(a, b) {
        let (i, j) = choose|i: int, j: int|
            #![trigger a[i], b[j]]
            0 <= i < a.len() && 0 <= j < b.len() && a[i].type_of() == b[j].type_of() && a[i] is Write
                && b[j] is Read;
        assert(overlap_other_writes(b, a)) by {
            assert(b[j].type_of() == a[i].type_of());
        }
    }
    if overlap_other_writes(a, b) && !overlap_other_writes(b, a) {
        let (i, j) = choose|i: int, j: int|
            #![trigger a[i], b[j]]
            0 <= i < a.len() && 0 <= j < b.len() && a[i].type_of() == b[j].type_of() && b[j] is Write;
        assert(!(a[i] is Write)) by {
            if a[i] is Write {
                assert(b[j].type_of() == a[i].type_of());
                assert(overlap_other_writes(b, a));
            }
        }
        assert(overlap_other_reads(b, a)) by {
            assert(b[j].type_of() == a[i].type_of());
        }
    }
    if any_overlap(a, b) && !overlap_both_read(a, b) && !overlap_other_writes(a, b) {
        let (i, j) = choose|i: int, j: int|
            #![trigger a[i], b[j]]
            0 <= i < a.len() && 0 <= j < b.len() && a[i].type_of() == b[j].type_of();
        assert(b[j] is Read);
        assert(a[i] is Write);
        assert(overlap_other_reads(a, b));
    }
}

} // verus!
