//! Identity of component types, and sets of component types held as vectors.
use std::any::TypeId;
use vstd::prelude::*;

verus! {

/// The type of a component, as Rust's `TypeId` identifies it.
#[verifier::external_type_specification]
#[verifier::external_body]
pub struct ExTypeId(TypeId);

/// Whether two type ids denote the same type. Calls `<TypeId as PartialEq>::eq`;
/// the contract claims that it answers exactly whether the two values are the same.
#[verifier::external_body]
pub(crate) fn same_type(a: &TypeId, b: &TypeId) -> (r: bool)
    ensures
        r == (*a == *b),
{
    *a == *b
}

/// The position of `t` in `types`, if it occurs there.
pub fn index_of_type(types: &Vec<TypeId>, t: &TypeId) -> (r: Option<usize>)
    ensures
        match r {
            Some(i) => i < types.len() && types@[i as int] == *t && forall|j: int|
                0 <= j < i ==> types@[j] != *t,
            None => !types@.contains(*t),
        },
{
    let mut i: usize = 0;
    while i < types.len()
        invariant
            i <= types.len(),
            forall|j: int| 0 <= j < i ==> types@[j] != *t,
        decreases types.len() - i,
    {
        if same_type(&types[i], t) {
            return Some(i);
        }
        i = i + 1;
    }
    None
}

/// A copy of a vector of type ids.
pub fn copy_types(types: &Vec<TypeId>) -> (r: Vec<TypeId>)
    ensures
        r@ == types@,
{
    let mut r: Vec<TypeId> = Vec::new();
    let mut i: usize = 0;
    while i < types.len()
        invariant
            i <= types.len(),
            r@ == types@.subrange(0, i as int),
        decreases types.len() - i,
    {
        r.push(types[i]);
        i = i + 1;
    }
    assert(r@ == types@);
    r
}

/// Removing an element from a duplicate-free sequence removes exactly that element from its set.
pub proof fn lemma_remove_to_set<A>(s: Seq<A>, j: int)
    requires
        s.no_duplicates(),
        0 <= j < s.len(),
    ensures
        s.remove(j).to_set() == s.to_set().remove(s[j]),
        s.remove(j).no_duplicates(),
{
    let r = s.remove(j);
    assert forall|x: A| #[trigger] r.to_set().contains(x) <==> s.to_set().remove(s[j]).contains(x) by {
        if r.to_set().contains(x) {
            let i = choose|i: int| 0 <= i < r.len() && r[i] == x;
            if i < j {
                assert(r[i] == s[i]);
            } else {
                assert(r[i] == s[i + 1]);
            }
        }
        if s.to_set().remove(s[j]).contains(x) {
            let i = choose|i: int| 0 <= i < s.len() && s[i] == x;
            assert(i != j);
            if i < j {
                assert(r[i] == s[i]);
            } else {
                assert(r[i - 1] == s[i]);
            }
        }
    }
    assert(r.to_set() =~= s.to_set().remove(s[j]));
    assert forall|a: int, b: int| 0 <= a < r.len() && 0 <= b < r.len() && a != b implies r[a] != r[b] by {
        let ia = if a < j { a } else { a + 1 };
        let ib = if b < j { b } else { b + 1 };
        assert(r[a] == s[ia] && r[b] == s[ib]);
    }
}

/// Whether `t` occurs in the slice `types`.
pub fn contains_type_in_slice(types: &[TypeId], t: &TypeId) -> (r: bool)
    ensures
        r == types@.contains(*t),
{
    let mut i: usize = 0;
    while i < types.len()
        invariant
            i <= types@.len(),
            forall|j: int| 0 <= j < i ==> types@[j] != *t,
        decreases types@.len() - i,
    {
        if same_type(&types[i], t) {
            return true;
        }
        i = i + 1;
    }
    false
}

/// Whether `t` occurs in `types`.
pub fn contains_type(types: &Vec<TypeId>, t: &TypeId) -> (r: bool)
    ensures
        r == types@.contains(*t),
{
    index_of_type(types, t).is_some()
}

/// Whether two duplicate-free vectors hold the same set of types, in any order.
pub fn same_type_set(a: &Vec<TypeId>, b: &Vec<TypeId>) -> (r: bool)
    requires
        a@.no_duplicates(),
        b@.no_duplicates(),
    ensures
        r == (a@.to_set() == b@.to_set()),
{
    proof {
        a@.unique_seq_to_set();
        b@.unique_seq_to_set();
    }
    if a.len() != b.len() {
        proof {
            if a@.to_set() == b@.to_set() {
                assert(false);
            }
        }
        return false;
    }
    let mut i: usize = 0;
    while i < a.len()
        invariant
            i <= a.len(),
            a.len() == b.len(),
            forall|j: int| 0 <= j < i ==> b@.contains(#[trigger] a@[j]),
        decreases a.len() - i,
    {
        if !contains_type(b, &a[i]) {
            proof {
                assert(a@.to_set().contains(a@[i as int]));
                assert(!b@.to_set().contains(a@[i as int]));
            }
            return false;
        }
        i = i + 1;
    }
    proof {
        assert(a@.to_set().subset_of(b@.to_set())) by {
            assert forall|t: TypeId| a@.to_set().contains(t) implies b@.to_set().contains(t) by {
                let j = choose|j: int| 0 <= j < a@.len() && a@[j] == t;
                assert(b@.contains(a@[j]));
            }
        }
        vstd::set_lib::lemma_subset_equality(a@.to_set(), b@.to_set());
    }
    true
}

/// The element of `s` whose second occurrence comes first, if any element occurs twice.
pub open spec fn first_duplicate_of<A>(s: Seq<A>) -> Option<A>
    decreases s.len(),
{
    if s.len() == 0 {
        None
    } else {
        match first_duplicate_of(s.drop_last()) {
            Some(d) => Some(d),
            None => if s.drop_last().contains(s.last()) {
                Some(s.last())
            } else {
                None
            },
        }
    }
}

proof fn lemma_first_duplicate_none<A>(s: Seq<A>)
    ensures
        first_duplicate_of(s) is None <==> s.no_duplicates(),
    decreases s.len(),
{
    if s.len() > 0 {
        lemma_first_duplicate_none(s.drop_last());
        if s.no_duplicates() {
            assert(s.drop_last().no_duplicates());
            if s.drop_last().contains(s.last()) {
                let j = choose|j: int| 0 <= j < s.drop_last().len() && s.drop_last()[j] == s.last();
                assert(s[j] == s[s.len() - 1]);
            }
        } else if first_duplicate_of(s) is None {
            assert(s.drop_last().no_duplicates());
            assert forall|i: int, j: int| 0 <= i < s.len() && 0 <= j < s.len() && i != j implies s[i]
                != s[j] by {
                if i == s.len() - 1 {
                    assert(s.drop_last()[j] == s[j]);
                } else if j == s.len() - 1 {
                    assert(s.drop_last()[i] == s[i]);
                } else {
                    assert(s.drop_last()[i] == s[i]);
                    assert(s.drop_last()[j] == s[j]);
                }
            }
        }
    }
}

/// The duplicate found is the element at the first position `j` whose element already occurs
/// before `j`; there is none exactly when no element occurs twice.
pub proof fn lemma_first_duplicate_is_first_repeat<A>(s: Seq<A>)
    ensures
        first_duplicate_of(s) matches Some(d) ==> exists|j: int|
            0 <= j < s.len() && s.take(j).no_duplicates() && s.take(j).contains(s[j]) && d
                == #[trigger] s[j],
        first_duplicate_of(s) is None ==> s.no_duplicates(),
    decreases s.len(),
{
    lemma_first_duplicate_none(s);
    if s.len() > 0 {
        let front = s.drop_last();
        lemma_first_duplicate_is_first_repeat(front);
        lemma_first_duplicate_none(front);
        match first_duplicate_of(front) {
            Some(d) => {
                let j = choose|j: int|
                    0 <= j < front.len() && front.take(j).no_duplicates() && front.take(j).contains(
                        front[j],
                    ) && d == #[trigger] front[j];
                assert(front.take(j) =~= s.take(j));
                assert(s[j] == front[j]);
            },
            None => {
                if front.contains(s.last()) {
                    let j = s.len() - 1;
                    assert(s.take(j) =~= front);
                    assert(s[j] == s.last());
                }
            },
        }
    }
}

/// Finds the type that is first seen a second time while walking through `types`.
pub fn first_duplicate(types: &Vec<TypeId>) -> (r: Option<TypeId>)
    ensures
        r == first_duplicate_of(types@),
        r is None <==> types@.no_duplicates(),
{
    let mut i: usize = 0;
    while i < types.len()
        invariant
            i <= types.len(),
            first_duplicate_of(types@.subrange(0, i as int)) is None,
        decreases types.len() - i,
    {
        let ghost prefix = types@.subrange(0, i as int);
        let ghost next = types@.subrange(0, i + 1);
        assert(next.drop_last() == prefix);
        let mut j: usize = 0;
        while j < i
            invariant
                j <= i < types.len(),
                prefix == types@.subrange(0, i as int),
                next == types@.subrange(0, i + 1),
                next.drop_last() == prefix,
                first_duplicate_of(prefix) is None,
                forall|k: int| 0 <= k < j ==> types@[k] != types@[i as int],
            decreases i - j,
        {
            if same_type(&types[j], &types[i]) {
                proof {
                    assert(prefix[j as int] == next.last());
                    assert(prefix.contains(next.last()));
                    assert(first_duplicate_of(next) == Some(types@[i as int]));
                    lemma_first_duplicate_of_extends(types@, i as int + 1);
                }
                return Some(types[i]);
            }
            j = j + 1;
        }
        proof {
            if prefix.contains(next.last()) {
                let k = choose|k: int| 0 <= k < prefix.len() && prefix[k] == next.last();
                assert(types@[k] == types@[i as int]);
            }
        }
        i = i + 1;
    }
    proof {
        assert(types@.subrange(0, types@.len() as int) == types@);
        lemma_first_duplicate_none(types@);
    }
    None
}

/// Once a prefix has a first duplicate, every longer prefix has the same one.
proof fn lemma_first_duplicate_of_extends<A>(s: Seq<A>, n: int)
    requires
        0 <= n <= s.len(),
        first_duplicate_of(s.subrange(0, n)) is Some,
    ensures
        first_duplicate_of(s) == first_duplicate_of(s.subrange(0, n)),
    decreases s.len() - n,
{
    if n < s.len() {
        let next = s.subrange(0, n + 1);
        assert(next.drop_last() == s.subrange(0, n));
        lemma_first_duplicate_of_extends(s, n + 1);
    } else {
        assert(s.subrange(0, n) == s);
    }
}

} // verus!
