//! An archetype stores the components of all entities that have exactly the same set of
//! component types, one component vector per type, with the entities' values aligned by index.
use crate::type_key::index_of_type;
use crate::{ArchetypeError, ArchetypeResult, ComponentIndex, Entity};
use std::any::TypeId;
use std::collections::HashMap;
use vstd::prelude::*;

verus! {

broadcast use vstd::std_specs::hash::group_hash_axioms;

/// The column of `types` that holds the values of type `t`.
pub open spec fn col_index(types: Seq<TypeId>, t: TypeId) -> int {
    choose|k: int| 0 <= k < types.len() && types[k] == t
}

/// The component types of a row of `(type, value)` pairs, in order.
pub open spec fn row_types<C>(row: Seq<(TypeId, C)>) -> Seq<TypeId> {
    row.map_values(|p: (TypeId, C)| p.0)
}

/// The components of a row of `(type, value)` pairs, as a map from type to value.
pub open spec fn row_map<C>(row: Seq<(TypeId, C)>) -> Map<TypeId, C> {
    Map::new(
        |t: TypeId| exists|i: int| 0 <= i < row.len() && row[i].0 == t,
        |t: TypeId| row[row_position(row, t)].1,
    )
}

/// The position in a row of the pair of type `t`.
pub open spec fn row_position<C>(row: Seq<(TypeId, C)>, t: TypeId) -> int {
    choose|i: int| 0 <= i < row.len() && row[i].0 == t
}

pub proof fn lemma_col_index(types: Seq<TypeId>, k: int)
    requires
        types.no_duplicates(),
        0 <= k < types.len(),
    ensures
        col_index(types, types[k]) == k,
{
    let j = col_index(types, types[k]);
    assert(0 <= j < types.len() && types[j] == types[k]);
}

pub proof fn lemma_row_map_at<C>(row: Seq<(TypeId, C)>, i: int)
    requires
        row_types(row).no_duplicates(),
        0 <= i < row.len(),
    ensures
        row_map(row).contains_key(row[i].0),
        row_map(row)[row[i].0] == row[i].1,
{
    let t = row[i].0;
    assert(0 <= i < row.len() && row[i].0 == t);
    let j = row_position(row, t);
    assert(row_types(row)[i] == t && row_types(row)[j] == t);
    if i != j {
        assert(row_types(row)[i] != row_types(row)[j]);
    }
    assert(row_map(row).contains_key(t));
    assert(row_map(row)[t] == row[j].1);
}

/// The types of a row are the keys of its map.
pub proof fn lemma_row_map_dom<C>(s: Seq<(TypeId, C)>)
    ensures
        row_map(s).dom() == row_types(s).to_set(),
{
    assert forall|t: TypeId| #[trigger] row_map(s).dom().contains(t) <==> row_types(s).to_set().contains(t) by {
        if row_map(s).dom().contains(t) {
            let i = choose|i: int| 0 <= i < s.len() && s[i].0 == t;
            assert(row_types(s)[i] == t);
        }
        if row_types(s).to_set().contains(t) {
            let i = choose|i: int| 0 <= i < row_types(s).len() && row_types(s)[i] == t;
            assert(s[i].0 == t);
        }
    }
    assert(row_map(s).dom() =~= row_types(s).to_set());
}

/// Prepending a pair of a new type to a row adds that type's value to its map.
pub proof fn lemma_row_map_prepend<C>(p: (TypeId, C), s: Seq<(TypeId, C)>)
    requires
        !row_types(s).contains(p.0),
        row_types(s).no_duplicates(),
    ensures
        row_types(seq![p] + s).no_duplicates(),
        row_types(seq![p] + s).to_set() == row_types(s).to_set().insert(p.0),
        row_map(seq![p] + s) == row_map(s).insert(p.0, p.1),
{
    let r = seq![p] + s;
    assert(row_types(r) =~= seq![p.0] + row_types(s));
    assert forall|i: int, j: int| 0 <= i < r.len() && 0 <= j < r.len() && i != j implies row_types(r)[i]
        != row_types(r)[j] by {
        if i == 0 {
            assert(row_types(s)[j - 1] == row_types(r)[j]);
        } else if j == 0 {
            assert(row_types(s)[i - 1] == row_types(r)[i]);
        } else {
            assert(row_types(s)[i - 1] == row_types(r)[i]);
            assert(row_types(s)[j - 1] == row_types(r)[j]);
        }
    }
    assert(row_types(r).to_set() =~= row_types(s).to_set().insert(p.0)) by {
        assert forall|t: TypeId| #[trigger] row_types(r).to_set().contains(t) implies row_types(
            s,
        ).to_set().insert(p.0).contains(t) by {
            let i = choose|i: int| 0 <= i < row_types(r).len() && row_types(r)[i] == t;
            if i > 0 {
                assert(row_types(s)[i - 1] == t);
            }
        }
        assert forall|t: TypeId| #[trigger] row_types(s).to_set().insert(p.0).contains(t) implies row_types(
            r,
        ).to_set().contains(t) by {
            if t != p.0 {
                let i = choose|i: int| 0 <= i < row_types(s).len() && row_types(s)[i] == t;
                assert(row_types(r)[i + 1] == t);
            } else {
                assert(row_types(r)[0] == t);
            }
        }
    }
    assert forall|t: TypeId| #[trigger] row_map(r).contains_key(t) <==> row_map(s).insert(
        p.0,
        p.1,
    ).contains_key(t) by {
        if row_map(r).contains_key(t) {
            let i = choose|i: int| 0 <= i < r.len() && r[i].0 == t;
            if i > 0 {
                assert(s[i - 1].0 == t);
            }
        }
        if row_map(s).contains_key(t) {
            let i = choose|i: int| 0 <= i < s.len() && s[i].0 == t;
            assert(r[i + 1].0 == t);
        }
        if t == p.0 {
            assert(r[0].0 == t);
        }
    }
    assert forall|t: TypeId| #[trigger] row_map(r).contains_key(t) implies row_map(r)[t] == row_map(
        s,
    ).insert(p.0, p.1)[t] by {
        let i = choose|i: int| 0 <= i < r.len() && r[i].0 == t;
        lemma_row_map_at(r, i);
        if i > 0 {
            assert(r[i] == s[i - 1]);
            assert(row_types(s)[i - 1] == t);
            lemma_row_map_at(s, i - 1);
        } else {
            assert(r[0] == p);
        }
    }
    assert(row_map(r) =~= row_map(s).insert(p.0, p.1));
}

/// Concatenating rows of disjoint types unites their maps.
pub proof fn lemma_row_map_append<C>(a: Seq<(TypeId, C)>, b: Seq<(TypeId, C)>)
    requires
        row_types(a).no_duplicates(),
        row_types(b).no_duplicates(),
        row_types(a).to_set().disjoint(row_types(b).to_set()),
    ensures
        row_types(a + b).no_duplicates(),
        row_types(a + b).to_set() == row_types(a).to_set().union(row_types(b).to_set()),
        row_map(a + b) == row_map(a).union_prefer_right(row_map(b)),
    decreases a.len(),
{
    if a.len() == 0 {
        assert(a + b == b);
        assert(row_types(a).to_set() =~= Set::<TypeId>::empty());
        assert(row_map(a) =~= Map::<TypeId, C>::empty());
        assert(row_map(a).union_prefer_right(row_map(b)) =~= row_map(b));
        assert(row_types(a).to_set().union(row_types(b).to_set()) =~= row_types(b).to_set());
    } else {
        let p = a[0];
        let rest = a.drop_first();
        assert(a == seq![p] + rest);
        assert(row_types(rest) =~= row_types(a).drop_first());
        assert(row_types(rest).no_duplicates()) by {
            assert forall|i: int, j: int| 0 <= i < rest.len() && 0 <= j < rest.len() && i != j implies row_types(rest)[i]
                != row_types(rest)[j] by {
                assert(row_types(a)[i + 1] == row_types(rest)[i]);
                assert(row_types(a)[j + 1] == row_types(rest)[j]);
            }
        }
        assert(row_types(rest).to_set().disjoint(row_types(b).to_set())) by {
            assert forall|t: TypeId| row_types(rest).to_set().contains(t) implies !row_types(b).to_set().contains(t) by {
                let i = choose|i: int| 0 <= i < row_types(rest).len() && row_types(rest)[i] == t;
                assert(row_types(a)[i + 1] == t);
                assert(row_types(a).to_set().contains(t));
            }
        }
        lemma_row_map_append(rest, b);
        assert(!row_types(rest).contains(p.0)) by {
            if row_types(rest).contains(p.0) {
                let i = choose|i: int| 0 <= i < row_types(rest).len() && row_types(rest)[i] == p.0;
                assert(row_types(a)[i + 1] == p.0);
                assert(row_types(a)[0] == p.0);
            }
        }
        assert(!row_types(rest + b).contains(p.0)) by {
            assert(row_types(a).to_set().contains(p.0)) by {
                assert(row_types(a)[0] == p.0);
            }
            if row_types(rest + b).contains(p.0) {
                assert(row_types(rest + b).to_set().contains(p.0));
            }
        }
        lemma_row_map_prepend(p, rest + b);
        lemma_row_map_prepend(p, rest);
        assert(a + b == seq![p] + (rest + b));
        assert(row_types(a + b).to_set() =~= row_types(a).to_set().union(row_types(b).to_set()));
        lemma_row_map_dom(b);
        assert(!row_map(b).contains_key(p.0)) by {
            assert(row_types(a)[0] == p.0);
            assert(row_types(a).to_set().contains(p.0));
        }
        assert(row_map(a + b) =~= row_map(a).union_prefer_right(row_map(b)));
    }
}

/// Keeps the pairs of a row whose types are not in `types`, dropping the others.
pub fn without_types<C>(row: Vec<(TypeId, C)>, types: &[TypeId]) -> (r: Vec<(TypeId, C)>)
    requires
        row_types(row@).no_duplicates(),
    ensures
        row_types(r@).no_duplicates(),
        row_types(r@).to_set() == row_types(row@).to_set().difference(types@.to_set()),
        row_map(r@) == row_map(row@).remove_keys(types@.to_set()),
{
    let ghost orig = row@;
    let ghost rm = types@.to_set();
    let ghost len = orig.len();
    let mut row = row;
    let mut kept: Vec<(TypeId, C)> = Vec::new();
    proof {
        assert(orig.subrange(len as int, len as int) =~= Seq::<(TypeId, C)>::empty());
        assert(row_map(Seq::<(TypeId, C)>::empty()) =~= Map::<TypeId, C>::empty());
        assert(row_types(kept@).to_set() =~= Set::<TypeId>::empty());
        assert(row_types(orig.subrange(len as int, len as int)).to_set() =~= Set::<TypeId>::empty());
    }
    while row.len() > 0
        invariant
            row@.len() <= len,
            len == orig.len(),
            row@ == orig.subrange(0, row@.len() as int),
            rm == types@.to_set(),
            row_types(orig).no_duplicates(),
            row_types(kept@).no_duplicates(),
            row_types(kept@).to_set() == row_types(orig.subrange(row@.len() as int, len as int)).to_set().difference(rm),
            row_map(kept@) == row_map(orig.subrange(row@.len() as int, len as int)).remove_keys(rm),
        decreases row@.len(),
    {
        let ghost n = row@.len() as int;
        let ghost before = row@;
        let ghost old_kept = kept@;
        let ghost suffix = orig.subrange(n, len as int);
        let ghost longer = orig.subrange(n - 1, len as int);
        let (t, v) = row.pop().unwrap();
        proof {
            assert(before.last() == orig[n - 1]);
            assert(longer =~= seq![orig[n - 1]] + suffix);
            assert(row_types(suffix).no_duplicates()) by {
                assert forall|i: int, j: int| 0 <= i < suffix.len() && 0 <= j < suffix.len() && i != j implies row_types(suffix)[i]
                    != row_types(suffix)[j] by {
                    assert(row_types(orig)[i + n] == row_types(suffix)[i]);
                    assert(row_types(orig)[j + n] == row_types(suffix)[j]);
                }
            }
            assert(!row_types(suffix).contains(t)) by {
                if row_types(suffix).contains(t) {
                    let i = choose|i: int| 0 <= i < row_types(suffix).len() && row_types(suffix)[i] == t;
                    assert(row_types(orig)[i + n] == t);
                    assert(row_types(orig)[n - 1] == t);
                }
            }
            lemma_row_map_prepend(orig[n - 1], suffix);
        }
        if !crate::type_key::contains_type_in_slice(types, &t) {
            kept.push((t, v));
            proof {
                assert(kept@ == old_kept.push((t, v)));
                assert(!row_types(old_kept).contains(t)) by {
                    if row_types(old_kept).contains(t) {
                        assert(row_types(old_kept).to_set().contains(t));
                    }
                }
                assert(row_types(kept@) =~= row_types(old_kept).push(t));
                row_types(old_kept).lemma_push_to_set_commute(t);
                assert(row_types(kept@).to_set() =~= row_types(longer).to_set().difference(rm));
                assert(kept@ =~= old_kept + seq![(t, v)]);
                assert(row_types(seq![(t, v)]) =~= seq![t]);
                assert(row_types(seq![(t, v)])[0] == t);
                assert(row_types(seq![(t, v)]).to_set() =~= set![t]) by {
                    assert forall|x: TypeId| #[trigger] row_types(seq![(t, v)]).to_set().contains(x) <==> x == t by {
                        if x == t {
                            assert(row_types(seq![(t, v)])[0] == x);
                        }
                    }
                }
                assert(row_types(old_kept).to_set().disjoint(row_types(seq![(t, v)]).to_set()));
                lemma_row_map_append(old_kept, seq![(t, v)]);
                lemma_row_map_at(seq![(t, v)], 0);
                assert(row_map(seq![(t, v)]) =~= map![t => v]);
                assert(row_map(kept@) =~= row_map(longer).remove_keys(rm));
            }
        } else {
            proof {
                assert(rm.contains(t));
                assert(row_types(kept@).to_set() =~= row_types(longer).to_set().difference(rm));
                assert(row_map(kept@) =~= row_map(longer).remove_keys(rm));
            }
        }
    }
    proof {
        assert(orig.subrange(0, len as int) == orig);
    }
    kept
}

/// The bookkeeping between the entities of an archetype and their component indices:
/// each stored entity maps to its own position, and nothing else is mapped.
pub(crate) open spec fn index_wf(entities: Seq<Entity>, e2c: Map<usize, ComponentIndex>) -> bool {
    &&& forall|i: int|
        0 <= i < entities.len() ==> #[trigger] e2c.contains_key(entities[i].id) && e2c[entities[i].id]
            == i
    &&& forall|id: usize| #[trigger]
        e2c.contains_key(id) ==> e2c[id] < entities.len() && entities[e2c[id] as int].id == id
    &&& e2c.dom().finite()
    &&& e2c.len() == entities.len()
}

/// Stores components associated with entity ids.
#[derive(Debug)]
pub struct Archetype<C> {
    component_types: Vec<TypeId>,
    component_vecs: Vec<Vec<C>>,
    entity_to_component_index: HashMap<usize, ComponentIndex>,
    entities: Vec<Entity>,
}

impl<C> Archetype<C> {
    /// The component types stored in this archetype.
    pub closed spec fn types(&self) -> Seq<TypeId> {
        self.component_types@
    }

    /// The entities stored in this archetype, in the order of their component indices.
    pub closed spec fn entity_seq(&self) -> Seq<Entity> {
        self.entities@
    }

    /// The component index of each stored entity, by entity id.
    pub closed spec fn index_map(&self) -> Map<usize, ComponentIndex> {
        self.entity_to_component_index@
    }

    /// The component vector of each stored type, in the order of `types`.
    pub closed spec fn columns(&self) -> Seq<Seq<C>> {
        self.component_vecs@.map_values(|v: Vec<C>| v@)
    }

    /// The components stored at a component index, by type.
    pub closed spec fn row(&self, i: int) -> Map<TypeId, C> {
        Map::new(
            |t: TypeId| self.component_types@.contains(t),
            |t: TypeId| self.component_vecs@[col_index(self.component_types@, t)]@[i],
        )
    }

    /// The components of every stored entity.
    pub closed spec fn contents(&self) -> Map<Entity, Map<TypeId, C>> {
        Map::new(
            |e: Entity| self.entity_to_component_index@.contains_key(e.id),
            |e: Entity| self.row(self.entity_to_component_index@[e.id] as int),
        )
    }

    /// The archetype's internal invariant.
    pub closed spec fn wf(&self) -> bool {
        &&& self.component_types@.no_duplicates()
        &&& self.component_vecs@.len() == self.component_types@.len()
        &&& forall|k: int|
            0 <= k < self.component_vecs@.len() ==> #[trigger] self.component_vecs@[k]@.len()
                == self.entities@.len()
        &&& index_wf(self.entities@, self.entity_to_component_index@)
    }

    pub proof fn lemma_wf_contents(&self)
        requires
            self.wf(),
        ensures
            forall|e: Entity| #[trigger]
                self.contents().contains_key(e) ==> self.contents()[e].dom() =~= self.types().to_set(),
            self.types().no_duplicates(),
            self.contents().dom().finite(),
            self.contents().len() == self.entity_seq().len(),
            forall|i: int|
                0 <= i < self.entity_seq().len() ==> #[trigger] self.contents().contains_key(
                    self.entity_seq()[i],
                ),
            forall|e: Entity| #[trigger]
                self.contents().contains_key(e) ==> self.entity_seq().contains(e),
    {
        assert forall|e: Entity| #[trigger] self.contents().contains_key(e) implies self.contents()[e].dom()
            =~= self.types().to_set() by {}
        let ids = self.entity_to_component_index@.dom();
        let d = self.contents().dom();
        assert(d =~= ids.map(|id: usize| Entity { id }));
        vstd::set_lib::lemma_map_size(ids, d, |id: usize| Entity { id });
        assert forall|e: Entity| #[trigger] self.contents().contains_key(e) implies self.entity_seq().contains(e) by {
            let i = self.entity_to_component_index@[e.id] as int;
            assert(self.entities@[i].id == e.id);
            assert(self.entities@[i] == e);
        }
    }

    /// The columns are aligned with the entities: column `k` holds the values of type
    /// `types()[k]`, one for each entity, the value at index `i` belonging to the entity stored
    /// at `i`.
    pub proof fn lemma_column_order(&self)
        requires
            self.wf(),
        ensures
            self.columns().len() == self.types().len(),
            forall|k: int|
                0 <= k < self.columns().len() ==> #[trigger] self.columns()[k].len()
                    == self.entity_seq().len(),
            forall|i: int| 0 <= i < self.entity_seq().len() ==> #[trigger] self.contents().contains_key(self.entity_seq()[i]),
            forall|i: int, k: int|
                0 <= i < self.entity_seq().len() && 0 <= k < self.types().len() ==> #[trigger] self.columns()[k][i]
                    == self.contents()[self.entity_seq()[i]][self.types()[k]],
    {
        assert forall|i: int| 0 <= i < self.entity_seq().len() implies #[trigger] self.contents().contains_key(self.entity_seq()[i]) by {
            assert(self.entity_to_component_index@.contains_key(self.entities@[i].id));
        }
        assert forall|i: int, k: int|
            0 <= i < self.entity_seq().len() && 0 <= k < self.types().len() implies #[trigger] self.columns()[k][i]
                == self.contents()[self.entity_seq()[i]][self.types()[k]] by {
            let e = self.entities@[i];
            assert(self.entity_to_component_index@.contains_key(self.entities@[i].id));
            assert(self.entity_to_component_index@[e.id] == i);
            lemma_col_index(self.component_types@, k);
            assert(self.component_types@.contains(self.component_types@[k]));
            assert(self.row(i)[self.component_types@[k]] == self.component_vecs@[k]@[i]);
        }
    }

    /// The value of component type `t` of a stored entity is the one in `t`'s component
    /// vector at the entity's component index.
    pub proof fn lemma_stored_value(&self, e: Entity, t: TypeId)
        requires
            self.wf(),
            self.contents().contains_key(e),
            self.types().contains(t),
        ensures
            self.index_map().contains_key(e.id),
            self.index_map()[e.id] < self.entity_seq().len(),
            0 <= col_index(self.types(), t) < self.columns().len(),
            self.index_map()[e.id] < self.columns()[col_index(self.types(), t)].len(),
            self.columns()[col_index(self.types(), t)][self.index_map()[e.id] as int]
                == self.contents()[e][t],
    {
        let k = col_index(self.types(), t);
        assert(0 <= k < self.component_types@.len() && self.component_types@[k] == t);
        assert(self.component_vecs@[k]@.len() == self.entities@.len());
    }

    /// Whether `after` is this archetype with only the value in column `k` at component index
    /// `i` replaced.
    spec fn cell_replaced(self, k: int, i: int, after: Self) -> bool {
        &&& after.component_types == self.component_types
        &&& after.entities == self.entities
        &&& after.entity_to_component_index == self.entity_to_component_index
        &&& after.component_vecs@ == self.component_vecs@.update(k, after.component_vecs@[k])
        &&& after.component_vecs@[k]@ == self.component_vecs@[k]@.update(
            i,
            after.component_vecs@[k]@[i],
        )
    }

    /// Replacing the value in column `k` at component index `i` changes the components of the
    /// entity stored at `i`, in that column's type, and nothing else.
    proof fn lemma_cell_write(self, k: int, i: int)
        requires
            self.wf(),
            0 <= k < self.component_types@.len(),
            0 <= i < self.entities@.len(),
        ensures
            self.contents().contains_key(self.entities@[i]),
            forall|after: Self|
                #![trigger after.wf()]
                #![trigger after.contents()]
                #![trigger after.columns()]
                self.cell_replaced(k, i, after) ==> {
                    let v = after.component_vecs@[k]@[i];
                    &&& after.wf()
                    &&& after.columns() == self.columns().update(k, self.columns()[k].update(i, v))
                    &&& after.contents() == self.contents().insert(
                        self.entities@[i],
                        self.contents()[self.entities@[i]].insert(self.component_types@[k], v),
                    )
                },
    {
        let e = self.entities@[i];
        let t = self.component_types@[k];
        lemma_col_index(self.component_types@, k);
        assert(self.entity_to_component_index@.contains_key(e.id));
        assert forall|after: Self| self.cell_replaced(k, i, after) implies {
            let v = after.component_vecs@[k]@[i];
            &&& after.wf()
            &&& after.columns() == self.columns().update(k, self.columns()[k].update(i, v))
            &&& after.contents() == self.contents().insert(e, self.contents()[e].insert(t, v))
        } by {
            let v = after.component_vecs@[k]@[i];
            assert forall|j: int| 0 <= j < after.component_vecs@.len() implies #[trigger] after.component_vecs@[j]@.len() == after.entities@.len() by {
                if j != k {
                    assert(after.component_vecs@[j] == self.component_vecs@[j]);
                }
            }
            assert(after.wf());
            assert(after.columns() =~= self.columns().update(k, self.columns()[k].update(i, v)));
            assert forall|e2: Entity| #[trigger] after.contents().contains_key(e2) implies after.contents()[e2]
                == self.contents().insert(e, self.contents()[e].insert(t, v))[e2] by {
                let i2 = self.entity_to_component_index@[e2.id] as int;
                if e2 == e {
                    assert(i2 == i);
                    assert(after.row(i2) =~= self.row(i).insert(t, v));
                } else {
                    assert(self.entities@[i2].id == e2.id);
                    assert(i2 != i);
                    assert forall|t2: TypeId| #[trigger] after.row(i2).contains_key(t2) implies after.row(i2)[t2] == self.row(i2)[t2] by {
                        let k2 = col_index(self.component_types@, t2);
                        if k2 != k {
                            assert(after.component_vecs@[k2] == self.component_vecs@[k2]);
                        }
                    }
                    assert(after.row(i2) =~= self.row(i2));
                }
            }
            assert(after.contents() =~= self.contents().insert(e, self.contents()[e].insert(t, v)));
        }
    }

    /// Creates an archetype that stores components of the given types, without any entities.
    pub fn new(component_types: Vec<TypeId>) -> (r: Self)
        requires
            component_types@.no_duplicates(),
        ensures
            r.wf(),
            r.types() == component_types@,
            r.contents() == Map::<Entity, Map<TypeId, C>>::empty(),
            r.entity_seq() == Seq::<Entity>::empty(),
    {
        let mut component_vecs: Vec<Vec<C>> = Vec::new();
        let mut k: usize = 0;
        while k < component_types.len()
            invariant
                k <= component_types.len(),
                component_vecs@.len() == k,
                forall|j: int| 0 <= j < k ==> #[trigger] component_vecs@[j]@.len() == 0,
            decreases component_types.len() - k,
        {
            component_vecs.push(Vec::new());
            k = k + 1;
        }
        let r = Archetype {
            component_types,
            component_vecs,
            entity_to_component_index: HashMap::new(),
            entities: Vec::new(),
        };
        assert(r.contents() =~= Map::<Entity, Map<TypeId, C>>::empty());
        r
    }

    /// The component types stored in this archetype, in column order.
    pub fn component_types(&self) -> (r: &Vec<TypeId>)
        ensures
            r@ == self.types(),
    {
        &self.component_types
    }

    /// The entities stored in this archetype, in the order of their component indices.
    pub fn entities(&self) -> (r: &Vec<Entity>)
        ensures
            r@ == self.entity_seq(),
    {
        &self.entities
    }

    /// Gets the [`ComponentIndex`] of a given [`Entity`] in this archetype.
    pub fn get_component_index_of(&self, entity: Entity) -> (r: ArchetypeResult<ComponentIndex>)
        ensures
            match r {
                Ok(i) => self.index_map().contains_key(entity.id) && i == self.index_map()[entity.id],
                Err(ArchetypeError::MissingEntityIndex(e)) => e == entity && !self.index_map().contains_key(
                    entity.id,
                ),
                Err(_) => false,
            },
    {
        match self.entity_to_component_index.get(&entity.id) {
            Some(i) => Ok(*i),
            None => Err(ArchetypeError::MissingEntityIndex(entity)),
        }
    }

    /// Gets an [`Entity`] stored in this archetype by the [`ComponentIndex`]
    /// which its component data is stored at.
    pub fn get_entity(&self, component_index: ComponentIndex) -> (r: Option<Entity>)
        ensures
            r == (if component_index < self.entity_seq().len() {
                Some(self.entity_seq()[component_index as int])
            } else {
                None
            }),
    {
        if component_index < self.entities.len() {
            Some(self.entities[component_index])
        } else {
            None
        }
    }

    /// Returns `true` if the archetype stores components of the given type.
    pub fn contains_component_type_id(&self, type_id: &TypeId) -> (r: bool)
        ensures
            r == self.types().contains(*type_id),
    {
        index_of_type(&self.component_types, type_id).is_some()
    }

    /// Returns the component vector of the given type, if it is stored.
    pub fn borrow_component_vec(&self, type_id: &TypeId) -> (r: Option<&Vec<C>>)
        requires
            self.wf(),
        ensures
            match r {
                Some(v) => self.types().contains(*type_id) && v@ == self.columns()[col_index(
                    self.types(),
                    *type_id,
                )],
                None => !self.types().contains(*type_id),
            },
    {
        match index_of_type(&self.component_types, type_id) {
            Some(k) => {
                proof {
                    lemma_col_index(self.component_types@, k as int);
                }
                Some(&self.component_vecs[k])
            },
            None => None,
        }
    }

    /// A mutable borrow of the component of type `type_id` at `component_index`, if the
    /// archetype stores that type and has that index; what is written through it replaces
    /// that component of the entity stored there, and nothing else changes.
    pub fn get_component_mut(&mut self, type_id: &TypeId, component_index: ComponentIndex) -> (r:
        Option<&mut C>)
        requires
            old(self).wf(),
        ensures
            match r {
                Some(c) => {
                    let k = col_index(old(self).types(), *type_id);
                    let e = old(self).entity_seq()[component_index as int];
                    &&& old(self).types().contains(*type_id)
                    &&& component_index < old(self).entity_seq().len()
                    &&& *c == old(self).columns()[k][component_index as int]
                    &&& final(self).wf()
                    &&& final(self).types() == old(self).types()
                    &&& final(self).entity_seq() == old(self).entity_seq()
                    &&& final(self).index_map() == old(self).index_map()
                    &&& final(self).columns() == old(self).columns().update(
                        k,
                        old(self).columns()[k].update(component_index as int, *final(c)),
                    )
                    &&& old(self).contents().contains_key(e)
                    &&& final(self).contents() == old(self).contents().insert(
                        e,
                        old(self).contents()[e].insert(*type_id, *final(c)),
                    )
                },
                None => (!old(self).types().contains(*type_id) || component_index
                    >= old(self).entity_seq().len()) && *final(self) == *old(self),
            },
    {
        match index_of_type(&self.component_types, type_id) {
            Some(k) => {
                if component_index < self.entities.len() {
                    proof {
                        lemma_col_index(self.component_types@, k as int);
                        assert(self.component_vecs@[k as int]@.len() == self.entities@.len());
                    }
                    proof {
                        self.lemma_cell_write(k as int, component_index as int);
                    }
                    Some(&mut self.component_vecs[k][component_index])
                } else {
                    None
                }
            },
            None => None,
        }
    }

    /// Adds an entity to keep track of and store components for.
    ///
    /// Returns error if entity with same `id` has been stored previously.
    fn store_entity(&mut self, entity: Entity) -> (r: ArchetypeResult<()>)
        requires
            index_wf(old(self).entities@, old(self).entity_to_component_index@),
        ensures
            final(self).component_types == old(self).component_types,
            final(self).component_vecs == old(self).component_vecs,
            final(self).entity_to_component_index@ == old(self).entity_to_component_index@.insert(
                entity.id,
                old(self).entities@.len() as usize,
            ),
            match r {
                Ok(()) => !old(self).entity_to_component_index@.contains_key(entity.id)
                    && final(self).entities@ == old(self).entities@.push(entity) && index_wf(
                    final(self).entities@,
                    final(self).entity_to_component_index@,
                ),
                Err(ArchetypeError::EntityAlreadyExists(e)) => e == entity
                    && old(self).entity_to_component_index@.contains_key(entity.id)
                    && final(self).entities@ == old(self).entities@,
                Err(_) => false,
            },
    {
        let entity_index = self.entity_to_component_index.len();
        match self.entity_to_component_index.insert(entity.id, entity_index) {
            None => {
                self.entities.push(entity);
                proof {
                    let ents = self.entities@;
                    let m = self.entity_to_component_index@;
                    assert forall|i: int| 0 <= i < ents.len() implies #[trigger] m.contains_key(
                        ents[i].id,
                    ) && m[ents[i].id] == i by {
                        if i < ents.len() - 1 {
                            assert(old(self).entity_to_component_index@.contains_key(
                                old(self).entities@[i].id,
                            ));
                        }
                    }
                    assert(m.dom() =~= old(self).entity_to_component_index@.dom().insert(
                        entity.id,
                    ));
                }
                Ok(())
            },
            Some(_) => Err(ArchetypeError::EntityAlreadyExists(entity)),
        }
    }

    /// Forgets the given entity: the last entity takes its place in the entity order.
    ///
    /// Returns error if the entity is not stored here.
    fn update_after_entity_removal(&mut self, entity: Entity) -> (r: ArchetypeResult<()>)
        requires
            index_wf(old(self).entities@, old(self).entity_to_component_index@),
        ensures
            final(self).component_types == old(self).component_types,
            final(self).component_vecs == old(self).component_vecs,
            index_wf(final(self).entities@, final(self).entity_to_component_index@),
            match r {
                Ok(()) => {
                    let i = old(self).entity_to_component_index@[entity.id] as int;
                    &&& old(self).entity_to_component_index@.contains_key(entity.id)
                    &&& final(self).entity_to_component_index@ == old(self).entity_to_component_index@.insert(old(self).entities@.last().id, i as usize).remove(
                        entity.id,
                    )
                    &&& final(self).entities@ == old(self).entities@.update(
                        i,
                        old(self).entities@.last(),
                    ).drop_last()
                },
                Err(ArchetypeError::MissingEntityIndex(e)) => e == entity
                    && !old(self).entity_to_component_index@.contains_key(entity.id) && final(self).entities
                    == old(self).entities && final(self).entity_to_component_index
                    == old(self).entity_to_component_index,
                Err(_) => false,
            },
    {
        let removed_entity_component_index = match self.get_component_index_of(entity) {
            Ok(i) => i,
            Err(e) => {
                return Err(e);
            },
        };
        let ghost old_ents = self.entities@;
        let ghost old_map = self.entity_to_component_index@;
        let ghost i = removed_entity_component_index as int;
        assert(old_ents[i].id == entity.id);
        // Update component index of entity which will be swapped during removal.
        let will_be_swapped_entity = self.entities[self.entities.len() - 1];
        self.entity_to_component_index.insert(will_be_swapped_entity.id, removed_entity_component_index);
        self.entities.swap_remove(removed_entity_component_index);
        self.entity_to_component_index.remove(&entity.id);
        proof {
            let ents = self.entities@;
            let m = self.entity_to_component_index@;
            let last = old_ents.len() - 1;
            assert(old_map.contains_key(old_ents[last].id));
            assert forall|j: int| 0 <= j < ents.len() implies #[trigger] m.contains_key(ents[j].id)
                && m[ents[j].id] == j by {
                if j == i {
                    assert(ents[j] == old_ents[last]);
                    assert(old_ents[last].id != entity.id);
                } else {
                    assert(ents[j] == old_ents[j]);
                    assert(old_map.contains_key(old_ents[j].id));
                    assert(old_ents[j].id != entity.id);
                    assert(old_ents[j].id != old_ents[last].id);
                }
            }
            assert forall|id: usize| #[trigger] m.contains_key(id) implies m[id] < ents.len()
                && ents[m[id] as int].id == id by {
                assert(old_map.contains_key(id));
                if id == old_ents[last].id {
                } else {
                    let j = old_map[id] as int;
                    assert(old_ents[j].id == id);
                    assert(j != last);
                    assert(j != i);
                }
            }
            assert(old_map.dom().insert(old_ents[last].id) =~= old_map.dom());
            assert(m.dom() =~= old_map.dom().remove(entity.id));
        }
        Ok(())
    }

    /// Removes the given entity and hands back its components, in column order.
    pub fn take_entity(&mut self, entity: Entity) -> (row: Vec<(TypeId, C)>)
        requires
            old(self).wf(),
            old(self).contents().contains_key(entity),
        ensures
            final(self).wf(),
            final(self).types() == old(self).types(),
            final(self).contents() == old(self).contents().remove(entity),
            row_types(row@) == old(self).types(),
            row_map(row@) == old(self).contents()[entity],
            final(self).entity_seq() == old(self).entity_seq().update(
                old(self).index_map()[entity.id] as int,
                old(self).entity_seq().last(),
            ).drop_last(),
    {
        let idx = *self.entity_to_component_index.get(&entity.id).unwrap();
        let ghost old_vecs = self.component_vecs@;
        let ghost n = self.entities@.len();
        let mut row: Vec<(TypeId, C)> = Vec::new();
        let mut k: usize = 0;
        while k < self.component_vecs.len()
            invariant
                k <= self.component_vecs@.len(),
                self.component_vecs@.len() == old_vecs.len(),
                self.component_types == old(self).component_types,
                self.entities == old(self).entities,
                self.entity_to_component_index == old(self).entity_to_component_index,
                old_vecs == old(self).component_vecs@,
                old(self).wf(),
                n == old(self).entities@.len(),
                idx < n,
                row@.len() == k,
                forall|j: int|
                    0 <= j < k ==> #[trigger] self.component_vecs@[j]@ == old_vecs[j]@.update(
                        idx as int,
                        old_vecs[j]@.last(),
                    ).drop_last(),
                forall|j: int| k <= j < old_vecs.len() ==> #[trigger] self.component_vecs@[j] == old_vecs[j],
                forall|j: int|
                    0 <= j < k ==> #[trigger] row@[j] == (
                        old(self).component_types@[j],
                        old_vecs[j]@[idx as int],
                    ),
            decreases old_vecs.len() - k,
        {
            assert(old_vecs[k as int]@.len() == n);
            let v = self.component_vecs[k].swap_remove(idx);
            row.push((self.component_types[k], v));
            k = k + 1;
        }
        let r = self.update_after_entity_removal(entity);
        proof {
            let types = self.component_types@;
            let ents = self.entities@;
            let m = self.entity_to_component_index@;
            let old_m = old(self).entity_to_component_index@;
            let old_ents = old(self).entities@;
            let last = n - 1;
            assert forall|j: int| 0 <= j < self.component_vecs@.len() implies #[trigger] self.component_vecs@[j]@.len()
                == ents.len() by {}
            assert(row_types(row@) =~= types);
            assert forall|e: Entity| #[trigger] self.contents().contains_key(e) <==> old(self).contents().remove(
                entity,
            ).contains_key(e) by {
                if e.id == entity.id {
                    assert(e == entity);
                }
            }
            assert forall|e: Entity| #[trigger] self.contents().contains_key(e) implies self.contents()[e]
                == old(self).contents()[e] by {
                let jn = m[e.id] as int;
                let jo = old_m[e.id] as int;
                assert(ents[jn].id == e.id);
                assert(old_ents[jo].id == e.id);
                if jo == last {
                    assert(jn == idx);
                } else {
                    assert(jo != idx as int);
                    assert(ents[jo] == old_ents[jo]);
                    assert(jn == jo);
                }
                assert forall|t: TypeId| #[trigger] types.contains(t) implies self.row(jn)[t]
                    == old(self).row(jo)[t] by {
                    let c = col_index(types, t);
                    assert(0 <= c < types.len() && types[c] == t);
                }
                assert(self.row(jn) =~= old(self).row(jo));
            }
            assert(self.contents() =~= old(self).contents().remove(entity));
            assert(row_types(row@).no_duplicates());
            assert forall|t: TypeId| #[trigger] row_map(row@).contains_key(t) <==> old(self).contents()[entity].contains_key(t) by {
                if types.contains(t) {
                    let c = col_index(types, t);
                    assert(row@[c].0 == t);
                }
            }
            assert forall|t: TypeId| #[trigger] row_map(row@).contains_key(t) implies row_map(row@)[t]
                == old(self).contents()[entity][t] by {
                let c = col_index(types, t);
                assert(0 <= c < types.len() && types[c] == t);
                lemma_row_map_at(row@, c);
            }
            assert(row_map(row@) =~= old(self).contents()[entity]);
        }
        row
    }

    /// Adds an entity together with its components, one for each stored type.
    pub fn push_row(&mut self, entity: Entity, row: Vec<(TypeId, C)>)
        requires
            old(self).wf(),
            !old(self).contents().contains_key(entity),
            row_types(row@).no_duplicates(),
            row_types(row@).to_set() == old(self).types().to_set(),
        ensures
            final(self).wf(),
            final(self).types() == old(self).types(),
            final(self).contents() == old(self).contents().insert(entity, row_map(row@)),
            final(self).entity_seq() == old(self).entity_seq().push(entity),
    {
        let ghost orig = row@;
        let ghost old_vecs = self.component_vecs@;
        let ghost n = self.entities@.len();
        let ghost types = self.component_types@;
        proof {
            old(self).lemma_wf_contents();
            assert(orig.len() == types.len()) by {
                row_types(orig).unique_seq_to_set();
                types.unique_seq_to_set();
            }
        }
        let mut row = row;
        while row.len() > 0
            invariant
                row@.len() <= orig.len(),
                row@ == orig.subrange(0, row@.len() as int),
                self.component_types@ == types,
                self.component_vecs@.len() == old_vecs.len(),
                old_vecs == old(self).component_vecs@,
                self.entities == old(self).entities,
                self.entity_to_component_index == old(self).entity_to_component_index,
                old(self).wf(),
                types == old(self).component_types@,
                n == old(self).entities@.len(),
                row_types(orig).no_duplicates(),
                row_types(orig).to_set() == types.to_set(),
                forall|j: int|
                    0 <= j < types.len() ==> #[trigger] self.component_vecs@[j]@ == if exists|i: int|
                        row@.len() <= i < orig.len() && orig[i].0 == types[j] {
                        old_vecs[j]@.push(row_map(orig)[types[j]])
                    } else {
                        old_vecs[j]@
                    },
            decreases row@.len(),
        {
            let ghost p = (row@.len() - 1) as int;
            let ghost before = row@;
            let (t, v) = row.pop().unwrap();
            proof {
                assert(before.last() == orig[p]);
                assert(orig[p] == (t, v));
                assert(row_types(orig)[p] == t);
                assert(row_types(orig).to_set().contains(t));
                lemma_row_map_at(orig, p);
            }
            let k = index_of_type(&self.component_types, &t).unwrap();
            proof {
                assert forall|i: int| row@.len() + 1 <= i < orig.len() implies orig[i].0 != t by {
                    assert(row_types(orig)[i] == orig[i].0);
                }
            }
            self.component_vecs[k].push(v);
            proof {
                assert forall|j: int| 0 <= j < types.len() implies #[trigger] self.component_vecs@[j]@
                    == if exists|i: int| row@.len() <= i < orig.len() && orig[i].0 == types[j] {
                    old_vecs[j]@.push(row_map(orig)[types[j]])
                } else {
                    old_vecs[j]@
                } by {
                    if j == k as int {
                        assert(row@.len() <= p < orig.len() && orig[p].0 == types[j]);
                    } else {
                        assert(types[j] != t);
                        if exists|i: int| row@.len() <= i < orig.len() && orig[i].0 == types[j] {
                            let i = choose|i: int| row@.len() <= i < orig.len() && orig[i].0 == types[j];
                            assert(i != p);
                        }
                    }
                }
            }
        }
        proof {
            assert forall|j: int| 0 <= j < types.len() implies (exists|i: int|
                0 <= i < orig.len() && orig[i].0 == #[trigger] types[j]) by {
                assert(types.to_set().contains(types[j]));
                assert(row_types(orig).to_set().contains(types[j]));
                let i = choose|i: int| 0 <= i < row_types(orig).len() && row_types(orig)[i] == types[j];
                assert(orig[i].0 == types[j]);
            }
        }
        let r = self.store_entity(entity);
        proof {
            let m = self.entity_to_component_index@;
            assert(!old(self).entity_to_component_index@.contains_key(entity.id));
            assert forall|j: int| 0 <= j < self.component_vecs@.len() implies #[trigger] self.component_vecs@[j]@.len()
                == self.entities@.len() by {
                assert(types.to_set().contains(types[j]));
                assert(row_types(orig).to_set().contains(types[j]));
                let i = choose|i: int| 0 <= i < row_types(orig).len() && row_types(orig)[i] == types[j];
                assert(orig[i].0 == types[j]);
                assert(self.component_vecs@[j]@ == old_vecs[j]@.push(row_map(orig)[types[j]]));
                assert(old_vecs[j]@.len() == n);
            }
            assert forall|e: Entity| #[trigger] self.contents().contains_key(e) implies self.contents()[e]
                == old(self).contents().insert(entity, row_map(orig))[e] by {
                if e == entity {
                    assert forall|t: TypeId| #[trigger] types.contains(t) implies self.row(n as int)[t]
                        == row_map(orig)[t] by {
                        let c = col_index(types, t);
                        assert(0 <= c < types.len() && types[c] == t);
                    }
                    assert forall|t: TypeId| #[trigger] row_map(orig).contains_key(t) <==> types.contains(t) by {
                        if row_map(orig).contains_key(t) {
                            let i = choose|i: int| 0 <= i < orig.len() && orig[i].0 == t;
                            assert(row_types(orig)[i] == t);
                            assert(row_types(orig).to_set().contains(t));
                            assert(types.to_set().contains(t));
                        }
                    }
                    assert(self.row(n as int) =~= row_map(orig));
                } else {
                    assert(e.id != entity.id);
                    let jo = old(self).entity_to_component_index@[e.id] as int;
                    assert forall|t: TypeId| #[trigger] types.contains(t) implies self.row(jo)[t]
                        == old(self).row(jo)[t] by {
                        let c = col_index(types, t);
                        assert(0 <= c < types.len() && types[c] == t);
                    }
                    assert(self.row(jo) =~= old(self).row(jo));
                }
            }
            assert(self.contents() =~= old(self).contents().insert(entity, row_map(orig)));
        }
    }
}

} // verus!
