//! Query filters narrow down which archetypes a query visits. A filter picks a set of
//! archetype indices out of a universe: the archetypes that store all component types the
//! query reads; the query visits the universe intersected with each filter's pick.
use crate::world::World;
use crate::ArchetypeIndex;
use std::any::TypeId;
use std::collections::HashSet;
use vstd::prelude::*;
use vstd::std_specs::iter::IteratorSpec;

verus! {

broadcast use vstd::std_specs::hash::group_hash_axioms;

/// The elements of `a` whose membership in `b` is `keep`.
fn select(a: &HashSet<ArchetypeIndex>, b: &HashSet<ArchetypeIndex>, keep: bool) -> (r: HashSet<
    ArchetypeIndex,
>)
    ensures
        r@ == a@.filter(|x: ArchetypeIndex| b@.contains(x) == keep),
{
    broadcast use vstd::std_specs::hash::axiom_spec_hash_keys_iter;

    let mut result: HashSet<ArchetypeIndex> = HashSet::new();
    let ghost keys: Seq<ArchetypeIndex> = vstd::std_specs::hash::spec_hash_keys_iter(a).remaining().unref();
    let ghost mut seen: Seq<ArchetypeIndex> = Seq::empty();
    for x in it: a.iter()
        invariant
            it.seq() == vstd::std_specs::hash::spec_hash_keys_iter(a).remaining(),
            keys == it.seq().unref(),
            keys.to_set() == a@,
            seen == it.seq().take(it.index()).unref(),
            forall|y: ArchetypeIndex|
                #[trigger] result@.contains(y) <==> (seen.contains(y) && b@.contains(y) == keep),
    {
        let ghost before = result@;
        if b.contains(x) == keep {
            result.insert(*x);
        }
        proof {
            assert(it.seq().take(it.index() + 1).unref() =~= seen.push(*x));
            let pushed = seen.push(*x);
            assert forall|y: ArchetypeIndex| #[trigger] result@.contains(y) <==> (pushed.contains(y)
                && b@.contains(y) == keep) by {
                if seen.contains(y) {
                    let k = choose|k: int| 0 <= k < seen.len() && seen[k] == y;
                    assert(pushed[k] == y);
                }
                if y == *x {
                    assert(pushed[seen.len() as int] == y);
                }
                if pushed.contains(y) {
                    let k = choose|k: int| 0 <= k < pushed.len() && pushed[k] == y;
                    if k < seen.len() {
                        assert(seen[k] == y);
                    }
                }
            }
            seen = pushed;
        }
    }
    proof {
        assert(seen == keys);
        assert(result@ =~= a@.filter(|x: ArchetypeIndex| b@.contains(x) == keep));
    }
    result
}

/// The elements of `a` and of `b`.
fn union(a: &HashSet<ArchetypeIndex>, b: &HashSet<ArchetypeIndex>) -> (r: HashSet<ArchetypeIndex>)
    ensures
        r@ == a@.union(b@),
{
    let only_b = select(b, a, false);
    let mut result = select(a, a, true);
    assert(result@ =~= a@);
    broadcast use vstd::std_specs::hash::axiom_spec_hash_keys_iter;

    let ghost keys: Seq<ArchetypeIndex> = vstd::std_specs::hash::spec_hash_keys_iter(&only_b).remaining().unref();
    let ghost mut seen: Seq<ArchetypeIndex> = Seq::empty();
    for x in it: only_b.iter()
        invariant
            it.seq() == vstd::std_specs::hash::spec_hash_keys_iter(&only_b).remaining(),
            keys == it.seq().unref(),
            keys.to_set() == only_b@,
            only_b@ == b@.filter(|x: ArchetypeIndex| a@.contains(x) == false),
            seen == it.seq().take(it.index()).unref(),
            forall|y: ArchetypeIndex| #[trigger] result@.contains(y) <==> (a@.contains(y) || seen.contains(y)),
    {
        result.insert(*x);
        proof {
            assert(it.seq().take(it.index() + 1).unref() =~= seen.push(*x));
            let pushed = seen.push(*x);
            assert forall|y: ArchetypeIndex| #[trigger] result@.contains(y) <==> (a@.contains(y)
                || pushed.contains(y)) by {
                if seen.contains(y) {
                    let k = choose|k: int| 0 <= k < seen.len() && seen[k] == y;
                    assert(pushed[k] == y);
                }
                if y == *x {
                    assert(pushed[seen.len() as int] == y);
                }
                if pushed.contains(y) {
                    let k = choose|k: int| 0 <= k < pushed.len() && pushed[k] == y;
                    if k < seen.len() {
                        assert(seen[k] == y);
                    }
                }
            }
            seen = pushed;
        }
    }
    proof {
        assert(seen == keys);
        assert forall|y: ArchetypeIndex| result@.contains(y) <==> a@.union(b@).contains(y) by {
            if b@.contains(y) && !a@.contains(y) {
                assert(only_b@.contains(y));
                assert(keys.to_set().contains(y));
                assert(seen.contains(y));
            }
            if seen.contains(y) {
                assert(keys.to_set().contains(y));
                assert(only_b@.contains(y));
                assert(b@.contains(y));
            }
        }
        assert(result@ =~= a@.union(b@));
    }
    result
}

/// A query filter: it picks, out of a universe of archetypes, the ones a query may visit.
pub trait Filter<C> {
    /// The archetypes that the filter picks out of `universe` in `world`.
    spec fn picks(&self, universe: Set<ArchetypeIndex>, world: World<C>) -> Set<ArchetypeIndex>;

    /// The archetypes that the filter picks out of `universe` in `world`.
    fn filter(&self, universe: &HashSet<ArchetypeIndex>, world: &World<C>) -> (r: HashSet<
        ArchetypeIndex,
    >)
        requires
            world.wf(),
        ensures
            r@ == self.picks(universe@, *world),
    ;
}

/// A query filter that matches any entity with a given component type.
#[derive(Debug)]
pub struct With {
    pub component_type: TypeId,
}

/// A query filter that inverts another filter.
#[derive(Debug)]
pub struct Not<T> {
    pub filter: T,
}

/// A query filter that matches entities that both filters match.
#[derive(Debug)]
pub struct And<L, R> {
    pub left: L,
    pub right: R,
}

/// A query filter that matches entities that either filter matches.
#[derive(Debug)]
pub struct Or<L, R> {
    pub left: L,
    pub right: R,
}

/// A query filter that matches entities that exactly one of the filters matches.
#[derive(Debug)]
pub struct Xor<L, R> {
    pub left: L,
    pub right: R,
}

/// A query filter that matches any entity without a given component type.
pub type Without = Not<With>;

impl<C> Filter<C> for With {
    /// Every archetype that stores the component type, whatever the universe.
    open spec fn picks(&self, universe: Set<ArchetypeIndex>, world: World<C>) -> Set<
        ArchetypeIndex,
    > {
        world.archetypes_with(set![self.component_type])
    }

    fn filter(&self, universe: &HashSet<ArchetypeIndex>, world: &World<C>) -> (r: HashSet<
        ArchetypeIndex,
    >) {
        world.archetypes_with_component_type(self.component_type)
    }
}

impl<C, T: Filter<C>> Filter<C> for Not<T> {
    /// The archetypes of the universe that the inner filter does not pick.
    open spec fn picks(&self, universe: Set<ArchetypeIndex>, world: World<C>) -> Set<
        ArchetypeIndex,
    > {
        universe.difference(self.filter.picks(universe, world))
    }

    fn filter(&self, universe: &HashSet<ArchetypeIndex>, world: &World<C>) -> (r: HashSet<
        ArchetypeIndex,
    >) {
        let inner = self.filter.filter(universe, world);
        let r = select(universe, &inner, false);
        assert(r@ =~= universe@.difference(self.filter.picks(universe@, *world)));
        r
    }
}

impl<C, L: Filter<C>, R: Filter<C>> Filter<C> for And<L, R> {
    /// What both filters pick.
    open spec fn picks(&self, universe: Set<ArchetypeIndex>, world: World<C>) -> Set<
        ArchetypeIndex,
    > {
        self.left.picks(universe, world).intersect(self.right.picks(universe, world))
    }

    fn filter(&self, universe: &HashSet<ArchetypeIndex>, world: &World<C>) -> (r: HashSet<
        ArchetypeIndex,
    >) {
        let left = self.left.filter(universe, world);
        let right = self.right.filter(universe, world);
        let r = select(&left, &right, true);
        assert(r@ =~= left@.intersect(right@));
        r
    }
}

impl<C, L: Filter<C>, R: Filter<C>> Filter<C> for Or<L, R> {
    /// What either filter picks.
    open spec fn picks(&self, universe: Set<ArchetypeIndex>, world: World<C>) -> Set<
        ArchetypeIndex,
    > {
        self.left.picks(universe, world).union(self.right.picks(universe, world))
    }

    fn filter(&self, universe: &HashSet<ArchetypeIndex>, world: &World<C>) -> (r: HashSet<
        ArchetypeIndex,
    >) {
        let left = self.left.filter(universe, world);
        let right = self.right.filter(universe, world);
        union(&left, &right)
    }
}

impl<C, L: Filter<C>, R: Filter<C>> Filter<C> for Xor<L, R> {
    /// What exactly one of the filters picks.
    open spec fn picks(&self, universe: Set<ArchetypeIndex>, world: World<C>) -> Set<
        ArchetypeIndex,
    > {
        let l = self.left.picks(universe, world);
        let r = self.right.picks(universe, world);
        l.difference(r).union(r.difference(l))
    }

    fn filter(&self, universe: &HashSet<ArchetypeIndex>, world: &World<C>) -> (r: HashSet<
        ArchetypeIndex,
    >) {
        let left = self.left.filter(universe, world);
        let right = self.right.filter(universe, world);
        let only_left = select(&left, &right, false);
        let only_right = select(&right, &left, false);
        assert(only_left@ =~= left@.difference(right@));
        assert(only_right@ =~= right@.difference(left@));
        union(&only_left, &only_right)
    }
}

/// What a query with filter `f` visits of `universe`: the universe intersected with the pick.
pub open spec fn visited<F: Filter<C>, C>(f: F, universe: Set<ArchetypeIndex>, world: World<C>) -> Set<
    ArchetypeIndex,
> {
    universe.intersect(f.picks(universe, world))
}

/// Filters combine like the operations they are named after: what a query visits with `Not`,
/// `And`, `Or` and `Xor` is the complement in the universe, the intersection, the union and
/// the symmetric difference of what it visits with the filters they combine. So the laws of
/// boolean algebra hold of filters (double negation, De Morgan's laws, distributivity, ...).
pub proof fn lemma_filters_form_a_boolean_algebra<L: Filter<C>, R: Filter<C>, C>(
    left: L,
    right: R,
    universe: Set<ArchetypeIndex>,
    world: World<C>,
)
    ensures
        visited(Not { filter: left }, universe, world) == universe.difference(
            visited(left, universe, world),
        ),
        visited(And { left, right }, universe, world) == visited(left, universe, world).intersect(
            visited(right, universe, world),
        ),
        visited(Or { left, right }, universe, world) == visited(left, universe, world).union(
            visited(right, universe, world),
        ),
        visited(Xor { left, right }, universe, world) == visited(left, universe, world).difference(
            visited(right, universe, world),
        ).union(visited(right, universe, world).difference(visited(left, universe, world))),
{
    let l = left.picks(universe, world);
    let r = right.picks(universe, world);
    assert(visited(Not { filter: left }, universe, world) =~= universe.difference(
        universe.intersect(l),
    ));
    assert(visited(And { left, right }, universe, world) =~= universe.intersect(l).intersect(
        universe.intersect(r),
    ));
    assert(visited(Or { left, right }, universe, world) =~= universe.intersect(l).union(
        universe.intersect(r),
    ));
    assert(visited(Xor { left, right }, universe, world) =~= universe.intersect(l).difference(
        universe.intersect(r),
    ).union(universe.intersect(r).difference(universe.intersect(l))));
}

/// Negating a filter twice visits what the filter visits.
pub proof fn lemma_double_negation<F: Filter<C>, C>(
    f: F,
    universe: Set<ArchetypeIndex>,
    world: World<C>,
)
    ensures
        visited(Not { filter: Not { filter: f } }, universe, world) == visited(f, universe, world),
{
    assert(visited(Not { filter: Not { filter: f } }, universe, world) =~= visited(
        f,
        universe,
        world,
    ));
}

} // verus!
