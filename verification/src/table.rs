//! A table stores component data in columns, one column per component type. The same row of
//! each column holds the data of the same entity, and the table keeps track of which entity
//! id maps to which row.
use crate::column::{new_empty_column, Column, TypedColumn};
use crate::type_key::same_type;
use std::any::TypeId;
use std::collections::HashMap;
use vstd::prelude::*;

verus! {

broadcast use vstd::std_specs::hash::group_hash_axioms;

/// The columns of a table as pairs of a component type and its cells.
pub type ColumnsView<C> = Seq<(TypeId, Seq<Option<C>>)>;

/// The columns as pairs of a component type and its cells.
pub open spec fn columns_view<C>(columns: Seq<TypedColumn<C>>) -> ColumnsView<C> {
    columns.map_values(|c: TypedColumn<C>| (c.component_type, c.cells@))
}

/// Whether some column has component type `t`.
pub open spec fn has_column<C>(cols: ColumnsView<C>, t: TypeId) -> bool {
    exists|k: int| 0 <= k < cols.len() && (#[trigger] cols[k]).0 == t
}

/// The position of the column with component type `t`.
pub open spec fn column_of<C>(cols: ColumnsView<C>, t: TypeId) -> int {
    choose|k: int| 0 <= k < cols.len() && (#[trigger] cols[k]).0 == t
}

/// No two columns have the same component type.
pub open spec fn types_distinct<C>(cols: ColumnsView<C>) -> bool {
    forall|i: int, j: int| 0 <= i < j < cols.len() ==> cols[i].0 != cols[j].0
}

/// With distinct component types, the column of type `t` is the one at position `k`.
pub proof fn lemma_column_of_unique<C>(cols: ColumnsView<C>, t: TypeId, k: int)
    requires
        types_distinct(cols),
        0 <= k < cols.len(),
        cols[k].0 == t,
    ensures
        has_column(cols, t),
        column_of(cols, t) == k,
{
    assert(has_column(cols, t));
    let c = column_of(cols, t);
    if c != k {
        if c < k {
            assert(cols[c].0 != cols[k].0);
        } else {
            assert(cols[k].0 != cols[c].0);
        }
    }
}

/// Every column with an empty cell added at the end.
pub open spec fn with_empty_row<C>(cols: ColumnsView<C>) -> ColumnsView<C> {
    cols.map_values(|c: (TypeId, Seq<Option<C>>)| (c.0, c.1.push(None)))
}

/// A table of component columns.
#[derive(Debug)]
pub struct Table<C> {
    pub columns: Vec<TypedColumn<C>>,
    pub entity_id_to_index: HashMap<usize, usize>,
    pub index_to_entity_id: HashMap<usize, usize>,
}

impl<C> Table<C> {
    /// The columns as pairs of a component type and its cells.
    pub open spec fn cols(&self) -> ColumnsView<C> {
        columns_view(self.columns@)
    }

    /// No two columns have the same component type.
    pub open spec fn wf(&self) -> bool {
        types_distinct(self.cols())
    }

    /// The rows are aligned: every column has one cell for each of the `n` entities the table
    /// knows, the entities have the rows `0..n`, and the two maps between entity ids and rows
    /// are inverse to each other.
    pub open spec fn aligned(&self) -> bool {
        let n = self.entity_id_to_index@.len();
        let e2i = self.entity_id_to_index@;
        let i2e = self.index_to_entity_id@;
        &&& e2i.dom().finite()
        &&& i2e.dom().finite()
        &&& i2e.len() == n
        &&& forall|k: int| 0 <= k < self.cols().len() ==> #[trigger] self.cols()[k].1.len() == n
        &&& forall|id: usize| #[trigger]
            e2i.contains_key(id) ==> e2i[id] < n && i2e.contains_key(e2i[id]) && i2e[e2i[id]]
                == id
        &&& forall|r: usize| #[trigger]
            i2e.contains_key(r) ==> r < n && e2i.contains_key(i2e[r]) && e2i[i2e[r]] == r
    }

    /// The row that an insertion for `entity_id` writes to: the entity's row, or a new last
    /// row numbered by how many entities the table knows.
    pub open spec fn row_for(&self, entity_id: usize) -> int {
        if self.entity_id_to_index@.contains_key(entity_id) {
            self.entity_id_to_index@[entity_id] as int
        } else {
            self.entity_id_to_index@.len() as int
        }
    }

    /// The columns that an insertion of a component of type `t` for `entity_id` writes into:
    /// a column for `t` is added if missing, with as many empty cells as the table knows
    /// entities, and a new entity gets an empty row in every column.
    pub open spec fn columns_before_write(&self, entity_id: usize, t: TypeId) -> ColumnsView<C> {
        let cols1 = if has_column(self.cols(), t) {
            self.cols()
        } else {
            self.cols().push((t, Seq::new(self.entity_id_to_index@.len(), |i: int| None::<C>)))
        };
        if self.entity_id_to_index@.contains_key(entity_id) {
            cols1
        } else {
            with_empty_row(cols1)
        }
    }

    /// An empty table.
    pub fn new() -> (r: Self)
        ensures
            r.cols() == Seq::<(TypeId, Seq<Option<C>>)>::empty(),
            r.entity_id_to_index@ == Map::<usize, usize>::empty(),
            r.index_to_entity_id@ == Map::<usize, usize>::empty(),
            r.aligned(),
    {
        let r = Self {
            columns: Vec::new(),
            index_to_entity_id: HashMap::new(),
            entity_id_to_index: HashMap::new(),
        };
        assert(r.cols() =~= Seq::<(TypeId, Seq<Option<C>>)>::empty());
        r
    }

    /// The position of the column with component type `t`, if there is one.
    fn column_index(&self, t: &TypeId) -> (r: Option<usize>)
        requires
            self.wf(),
        ensures
            match r {
                Some(k) => has_column(self.cols(), *t) && k == column_of(self.cols(), *t),
                None => !has_column(self.cols(), *t),
            },
    {
        let mut k: usize = 0;
        while k < self.columns.len()
            invariant
                self.wf(),
                k <= self.columns.len(),
                forall|j: int| 0 <= j < k ==> self.cols()[j].0 != *t,
            decreases self.columns.len() - k,
        {
            if same_type(&self.columns[k].component_type, t) {
                assert(self.cols()[k as int].0 == *t);
                proof {
                    lemma_column_of_unique(self.cols(), *t, k as int);
                }
                return Some(k);
            }
            k = k + 1;
        }
        None
    }

    /// Stores `component`, of component type `component_type`, for `entity_id`. A column for
    /// the type is added if missing, and a new entity gets a new row.
    pub fn insert(&mut self, entity_id: usize, component_type: TypeId, component: C)
        requires
            old(self).wf(),
            ({
                let cols = old(self).columns_before_write(entity_id, component_type);
                old(self).row_for(entity_id) < cols[column_of(cols, component_type)].1.len()
            }),
        ensures
            final(self).wf(),
            ({
                let cols = old(self).columns_before_write(entity_id, component_type);
                let k = column_of(cols, component_type);
                let row = old(self).row_for(entity_id);
                &&& has_column(cols, component_type)
                &&& final(self).cols() == cols.update(
                    k,
                    (component_type, cols[k].1.update(row, Some(component))),
                )
            }),
            old(self).entity_id_to_index@.contains_key(entity_id) ==> final(self).entity_id_to_index@ == old(self).entity_id_to_index@ && final(self).index_to_entity_id@ == old(self).index_to_entity_id@,
            !old(self).entity_id_to_index@.contains_key(entity_id) ==> final(self).entity_id_to_index@ == old(self).entity_id_to_index@.insert(
                entity_id,
                old(self).entity_id_to_index@.len() as usize,
            ) && final(self).index_to_entity_id@ == old(self).index_to_entity_id@.insert(
                old(self).entity_id_to_index@.len() as usize,
                entity_id,
            ),
            old(self).aligned() && old(self).entity_id_to_index@.len() < usize::MAX
                ==> final(self).aligned(),
    {
        let ghost cols0 = self.cols();
        if self.column_index(&component_type).is_none() {
            let capacity = self.entity_id_to_index.len();
            self.columns.push(new_empty_column(component_type, capacity));
            proof {
                assert(self.cols() =~= cols0.push(
                    (component_type, Seq::new(old(self).entity_id_to_index@.len(), |i: int| None::<C>)),
                ));
                assert(self.cols()[cols0.len() as int].0 == component_type);
            }
        }
        let ghost cols1 = self.cols();
        assert(has_column(cols1, component_type));
        let index = match self.entity_id_to_index.get(&entity_id) {
            Some(i) => *i,
            None => {
                self.insert_empty_row();
                let index = self.entity_id_to_index.len();
                self.entity_id_to_index.insert(entity_id, index);
                self.index_to_entity_id.insert(index, entity_id);
                index
            },
        };
        let ghost cols2 = self.cols();
        assert(cols2 == old(self).columns_before_write(entity_id, component_type));
        assert(has_column(cols2, component_type)) by {
            let k = column_of(cols1, component_type);
            assert(cols2[k].0 == component_type);
        }
        let k = self.column_index(&component_type).unwrap();
        self.columns[k].cells.set(index, Some(component));
        proof {
            assert(self.cols() =~= cols2.update(
                k as int,
                (component_type, cols2[k as int].1.update(index as int, Some(component))),
            ));
            if old(self).aligned() && old(self).entity_id_to_index@.len() < usize::MAX {
                old(self).lemma_insert_keeps_aligned(*self, entity_id, component_type, component);
            }
        }
    }

    /// In an aligned table, the row an insertion writes to lies inside the column it writes,
    /// so `insert` may be called with any entity id, component type and component.
    pub proof fn lemma_aligned_insert_allowed(&self, entity_id: usize, component_type: TypeId)
        requires
            self.wf(),
            self.aligned(),
        ensures
            ({
                let cols = self.columns_before_write(entity_id, component_type);
                self.row_for(entity_id) < cols[column_of(cols, component_type)].1.len()
            }),
    {
        let n = self.entity_id_to_index@.len();
        let cols1 = if has_column(self.cols(), component_type) {
            self.cols()
        } else {
            self.cols().push((component_type, Seq::new(n, |i: int| None::<C>)))
        };
        if !has_column(self.cols(), component_type) {
            assert(cols1[self.cols().len() as int].0 == component_type);
        }
        assert forall|k: int| 0 <= k < cols1.len() implies #[trigger] cols1[k].1.len() == n by {
            if k < self.cols().len() {
                assert(cols1[k] == self.cols()[k]);
            }
        }
        let cols = self.columns_before_write(entity_id, component_type);
        let k = column_of(cols, component_type);
        assert(0 <= k < cols.len()) by {
            if self.entity_id_to_index@.contains_key(entity_id) {
                assert(cols == cols1);
            } else {
                assert(cols.len() == cols1.len());
                let j = column_of(cols1, component_type);
                assert(cols[j].0 == cols1[j].0);
            }
        }
    }

    /// An insertion into an aligned table with fewer than `usize::MAX` entities leaves it
    /// aligned.
    proof fn lemma_insert_keeps_aligned(&self, after: Self, entity_id: usize, component_type: TypeId, component: C)
        requires
            self.wf(),
            self.aligned(),
            self.entity_id_to_index@.len() < usize::MAX,
            ({
                let cols = self.columns_before_write(entity_id, component_type);
                let k = column_of(cols, component_type);
                let row = self.row_for(entity_id);
                &&& has_column(cols, component_type)
                &&& after.cols() == cols.update(
                    k,
                    (component_type, cols[k].1.update(row, Some(component))),
                )
            }),
            self.entity_id_to_index@.contains_key(entity_id) ==> after.entity_id_to_index@ == self.entity_id_to_index@ && after.index_to_entity_id@ == self.index_to_entity_id@,
            !self.entity_id_to_index@.contains_key(entity_id) ==> after.entity_id_to_index@ == self.entity_id_to_index@.insert(
                entity_id,
                self.entity_id_to_index@.len() as usize,
            ) && after.index_to_entity_id@ == self.index_to_entity_id@.insert(
                self.entity_id_to_index@.len() as usize,
                entity_id,
            ),
        ensures
            after.aligned(),
    {
        let n = self.entity_id_to_index@.len();
        let e2i = self.entity_id_to_index@;
        let i2e = self.index_to_entity_id@;
        let cols1 = if has_column(self.cols(), component_type) {
            self.cols()
        } else {
            self.cols().push((component_type, Seq::new(n, |i: int| None::<C>)))
        };
        assert forall|k: int| 0 <= k < cols1.len() implies #[trigger] cols1[k].1.len() == n by {
            if k < self.cols().len() {
                assert(cols1[k] == self.cols()[k]);
            }
        }
        let cols = self.columns_before_write(entity_id, component_type);
        let n2: nat = if e2i.contains_key(entity_id) { n } else { n + 1 };
        assert forall|k: int| 0 <= k < cols.len() implies #[trigger] cols[k].1.len() == n2 by {
            if !e2i.contains_key(entity_id) {
                assert(cols[k] == (cols1[k].0, cols1[k].1.push(None)));
            }
        }
        let kk = column_of(cols, component_type);
        assert forall|k: int| 0 <= k < after.cols().len() implies #[trigger] after.cols()[k].1.len() == n2 by {
            assert(cols[k].1.len() == n2);
            if k == kk {
                assert(after.cols()[k].1 == cols[k].1.update(self.row_for(entity_id), Some(component)));
            } else {
                assert(after.cols()[k] == cols[k]);
            }
        }
        if !e2i.contains_key(entity_id) {
            assert(!i2e.contains_key(n as usize));
            assert(after.entity_id_to_index@.len() == n + 1);
            assert(after.index_to_entity_id@.len() == n + 1);
            let e2 = after.entity_id_to_index@;
            let i2 = after.index_to_entity_id@;
            assert forall|id: usize| #[trigger] e2.contains_key(id) implies e2[id] < n + 1
                && i2.contains_key(e2[id]) && i2[e2[id]] == id by {
                if id != entity_id {
                    assert(e2[id] == e2i[id]);
                    assert(e2i[id] < n);
                }
            }
            assert forall|r: usize| #[trigger] i2.contains_key(r) implies r < n + 1
                && e2.contains_key(i2[r]) && e2[i2[r]] == r by {
                if r != n as usize {
                    assert(i2[r] == i2e[r]);
                    assert(e2i.contains_key(i2e[r]));
                    assert(i2e[r] != entity_id);
                }
            }
        }
    }

    /// Adds an empty cell at the end of every column.
    fn insert_empty_row(&mut self)
        requires
            old(self).wf(),
        ensures
            final(self).wf(),
            final(self).cols() == with_empty_row(old(self).cols()),
            final(self).entity_id_to_index@ == old(self).entity_id_to_index@,
            final(self).index_to_entity_id@ == old(self).index_to_entity_id@,
    {
        let mut k: usize = 0;
        while k < self.columns.len()
            invariant
                k <= self.columns.len(),
                self.columns@.len() == old(self).columns@.len(),
                self.entity_id_to_index@ == old(self).entity_id_to_index@,
                self.index_to_entity_id@ == old(self).index_to_entity_id@,
                forall|j: int|
                    0 <= j < self.columns@.len() ==> #[trigger] self.cols()[j] == if j < k {
                        with_empty_row(old(self).cols())[j]
                    } else {
                        old(self).cols()[j]
                    },
            decreases self.columns.len() - k,
        {
            assert(self.cols()[k as int] == old(self).cols()[k as int]);
            let ghost before = self.columns@;
            let ghost before_cols = self.cols();
            self.columns[k].add_empty_cell();
            proof {
                assert(self.columns@ == before.update(k as int, self.columns@[k as int]));
                assert(self.columns@[k as int].cells@ == before[k as int].cells@.push(None));
                assert(self.columns@[k as int].component_type == before[k as int].component_type);
                assert(before_cols[k as int] == old(self).cols()[k as int]);
                assert forall|j: int| 0 <= j < self.columns@.len() implies #[trigger] self.cols()[j]
                    == if j < k + 1 {
                    with_empty_row(old(self).cols())[j]
                } else {
                    old(self).cols()[j]
                } by {
                    if j != k {
                        assert(self.columns@[j] == before[j]);
                        assert(before_cols[j] == self.cols()[j]);
                    }
                }
            }
            k = k + 1;
        }
        assert(self.cols() =~= with_empty_row(old(self).cols()));
    }

    /// Removes the cell at position `entity_id` (the entity id, not its row) from every
    /// column, when the table knows the entity, and forgets the entity and its row.
    pub fn remove_entity(&mut self, entity_id: usize)
        requires
            old(self).wf(),
            old(self).entity_id_to_index@.contains_key(entity_id) ==> forall|k: int|
                0 <= k < old(self).cols().len() ==> entity_id < (#[trigger] old(self).cols()[k]).1.len(),
        ensures
            final(self).wf(),
            !old(self).entity_id_to_index@.contains_key(entity_id) ==> final(self).cols() == old(self).cols() && final(self).entity_id_to_index@ == old(self).entity_id_to_index@
                && final(self).index_to_entity_id@ == old(self).index_to_entity_id@,
            old(self).entity_id_to_index@.contains_key(entity_id) ==> {
                &&& final(self).cols() == old(self).cols().map_values(
                    |c: (TypeId, Seq<Option<C>>)|
                        (c.0, c.1.update(entity_id as int, c.1.last()).drop_last()),
                )
                &&& final(self).entity_id_to_index@ == old(self).entity_id_to_index@.remove(
                    entity_id,
                )
                &&& final(self).index_to_entity_id@ == old(self).index_to_entity_id@.remove(
                    old(self).entity_id_to_index@[entity_id],
                )
            },
    {
        match self.entity_id_to_index.get(&entity_id) {
            Some(i) => {
                let index = *i;
                let mut k: usize = 0;
                while k < self.columns.len()
                    invariant
                        k <= self.columns.len(),
                        self.columns@.len() == old(self).columns@.len(),
                        self.entity_id_to_index@ == old(self).entity_id_to_index@,
                        self.index_to_entity_id@ == old(self).index_to_entity_id@,
                        old(self).entity_id_to_index@.contains_key(entity_id),
                        forall|j: int|
                            0 <= j < old(self).cols().len() ==> entity_id < (
                            #[trigger] old(self).cols()[j]).1.len(),
                        forall|j: int|
                            0 <= j < self.columns@.len() ==> #[trigger] self.cols()[j] == if j < k {
                                (
                                    old(self).cols()[j].0,
                                    old(self).cols()[j].1.update(
                                        entity_id as int,
                                        old(self).cols()[j].1.last(),
                                    ).drop_last(),
                                )
                            } else {
                                old(self).cols()[j]
                            },
                    decreases self.columns.len() - k,
                {
                    assert(self.cols()[k as int] == old(self).cols()[k as int]);
                    let ghost before = self.columns@;
                    let ghost before_cols = self.cols();
                    self.columns[k].swap_remove(entity_id);
                    proof {
                        assert forall|j: int| 0 <= j < self.columns@.len() implies #[trigger] self.cols()[j]
                            == if j < k + 1 {
                            (
                                old(self).cols()[j].0,
                                old(self).cols()[j].1.update(
                                    entity_id as int,
                                    old(self).cols()[j].1.last(),
                                ).drop_last(),
                            )
                        } else {
                            old(self).cols()[j]
                        } by {
                            if j != k {
                                assert(self.columns@[j] == before[j]);
                                assert(before_cols[j] == self.cols()[j]);
                            }
                        }
                    }
                    k = k + 1;
                }
                let ghost f = |c: (TypeId, Seq<Option<C>>)|
                    (c.0, c.1.update(entity_id as int, c.1.last()).drop_last());
                proof {
                    assert forall|j: int| 0 <= j < self.cols().len() implies #[trigger] self.cols()[j]
                        == old(self).cols().map_values(f)[j] by {
                        assert(j < k);
                        assert(self.cols()[j] == f(old(self).cols()[j]));
                    }
                    assert(self.cols() =~= old(self).cols().map_values(f));
                }
                self.index_to_entity_id.remove(&index);
                self.entity_id_to_index.remove(&entity_id);
            },
            None => {},
        }
    }

    /// Empties the cell of `entity_id`'s row in the column of `component_type`, when the
    /// table knows the entity, and forgets the entity and its row.
    pub fn remove_component(&mut self, entity_id: usize, component_type: TypeId)
        requires
            old(self).wf(),
            old(self).entity_id_to_index@.contains_key(entity_id) && has_column(
                old(self).cols(),
                component_type,
            ) ==> old(self).entity_id_to_index@[entity_id] < old(self).cols()[column_of(
                old(self).cols(),
                component_type,
            )].1.len(),
        ensures
            final(self).wf(),
            !old(self).entity_id_to_index@.contains_key(entity_id) ==> final(self).cols() == old(self).cols() && final(self).entity_id_to_index@ == old(self).entity_id_to_index@
                && final(self).index_to_entity_id@ == old(self).index_to_entity_id@,
            old(self).entity_id_to_index@.contains_key(entity_id) ==> {
                let row = old(self).entity_id_to_index@[entity_id] as int;
                let k = column_of(old(self).cols(), component_type);
                &&& final(self).cols() == if has_column(old(self).cols(), component_type) {
                    old(self).cols().update(
                        k,
                        (component_type, old(self).cols()[k].1.update(row, None)),
                    )
                } else {
                    old(self).cols()
                }
                &&& final(self).entity_id_to_index@ == old(self).entity_id_to_index@.remove(
                    entity_id,
                )
                &&& final(self).index_to_entity_id@ == old(self).index_to_entity_id@.remove(
                    row as usize,
                )
            },
    {
        match self.entity_id_to_index.get(&entity_id) {
            Some(i) => {
                let index = *i;
                match self.column_index(&component_type) {
                    Some(k) => {
                        self.columns[k].cells.set(index, None);
                        proof {
                            let row = old(self).entity_id_to_index@[entity_id] as int;
                            assert(self.cols() =~= old(self).cols().update(
                                k as int,
                                (component_type, old(self).cols()[k as int].1.update(row, None)),
                            ));
                        }
                    },
                    None => {},
                }
                self.index_to_entity_id.remove(&index);
                self.entity_id_to_index.remove(&entity_id);
            },
            None => {},
        }
    }

    /// The column of `component_type`, if there is one.
    pub fn get_column_ref(&self, component_type: TypeId) -> (r: Option<&TypedColumn<C>>)
        requires
            self.wf(),
        ensures
            match r {
                Some(c) => has_column(self.cols(), component_type) && *c == self.columns@[column_of(
                    self.cols(),
                    component_type,
                )],
                None => !has_column(self.cols(), component_type),
            },
    {
        match self.column_index(&component_type) {
            Some(k) => Some(&self.columns[k]),
            None => None,
        }
    }

    /// A mutable borrow of the column of `component_type`, if there is one; what is written
    /// through it becomes that column.
    pub fn get_column_mut(&mut self, component_type: TypeId) -> (r: Option<&mut TypedColumn<C>>)
        requires
            old(self).wf(),
        ensures
            match r {
                Some(c) => {
                    let k = column_of(old(self).cols(), component_type);
                    &&& has_column(old(self).cols(), component_type)
                    &&& *c == old(self).columns@[k]
                    &&& final(self).columns@ == old(self).columns@.update(k, *final(c))
                    &&& final(self).entity_id_to_index@ == old(self).entity_id_to_index@
                    &&& final(self).index_to_entity_id@ == old(self).index_to_entity_id@
                },
                None => !has_column(old(self).cols(), component_type) && *final(self) == *old(self),
            },
    {
        match self.column_index(&component_type) {
            Some(k) => Some(&mut self.columns[k]),
            None => None,
        }
    }

    /// The cells of the column of `component_type`, if there is one.
    pub fn get_column_as_vec(&self, component_type: TypeId) -> (r: Option<&Vec<Option<C>>>)
        requires
            self.wf(),
        ensures
            match r {
                Some(v) => has_column(self.cols(), component_type) && v@ == self.cols()[column_of(
                    self.cols(),
                    component_type,
                )].1,
                None => !has_column(self.cols(), component_type),
            },
    {
        match self.get_column_ref(component_type) {
            Some(column) => Some(&column.cells),
            None => None,
        }
    }

    /// A mutable borrow of the cells of the column of `component_type`, if there is one; what
    /// is written through it becomes that column's cells.
    pub fn get_column_as_vec_mut(&mut self, component_type: TypeId) -> (r: Option<
        &mut Vec<Option<C>>,
    >)
        requires
            old(self).wf(),
        ensures
            match r {
                Some(v) => {
                    let k = column_of(old(self).cols(), component_type);
                    &&& has_column(old(self).cols(), component_type)
                    &&& v@ == old(self).cols()[k].1
                    &&& final(self).cols() == old(self).cols().update(
                        k,
                        (component_type, final(v)@),
                    )
                    &&& final(self).entity_id_to_index@ == old(self).entity_id_to_index@
                    &&& final(self).index_to_entity_id@ == old(self).index_to_entity_id@
                },
                None => !has_column(old(self).cols(), component_type) && *final(self) == *old(self),
            },
    {
        match self.column_index(&component_type) {
            Some(k) => {
                proof {
                    assert(old(self).cols()[k as int].0 == component_type);
                }
                Some(&mut self.columns[k].cells)
            },
            None => None,
        }
    }

    /// A table with columns of the same component types, in the same order, all empty, and
    /// no entities.
    pub fn new_empty_table(&self) -> (r: Self)
        requires
            self.wf(),
        ensures
            r.wf(),
            r.cols() == self.cols().map_values(
                |c: (TypeId, Seq<Option<C>>)| (c.0, Seq::<Option<C>>::empty()),
            ),
            r.entity_id_to_index@ == Map::<usize, usize>::empty(),
            r.index_to_entity_id@ == Map::<usize, usize>::empty(),
            r.aligned(),
    {
        let mut columns: Vec<TypedColumn<C>> = Vec::new();
        let mut k: usize = 0;
        while k < self.columns.len()
            invariant
                k <= self.columns.len(),
                columns_view(columns@) == self.cols().take(k as int).map_values(
                    |c: (TypeId, Seq<Option<C>>)| (c.0, Seq::<Option<C>>::empty()),
                ),
            decreases self.columns.len() - k,
        {
            let column = self.columns[k].empty_copy(0);
            let ghost before = columns@;
            columns.push(column);
            proof {
                assert(columns_view(columns@) =~= columns_view(before).push(
                    (column.component_type, column.cells@),
                ));
                assert(self.cols().take(k + 1) =~= self.cols().take(k as int).push(self.cols()[k as int]));
                assert(columns_view(columns@) =~= self.cols().take(k + 1).map_values(
                    |c: (TypeId, Seq<Option<C>>)| (c.0, Seq::<Option<C>>::empty()),
                ));
            }
            k = k + 1;
        }
        assert(self.cols().take(self.columns.len() as int) == self.cols());
        Self { columns, entity_id_to_index: HashMap::new(), index_to_entity_id: HashMap::new() }
    }

    /// The component types of the columns, in the order of the columns.
    pub fn get_all_type_ids(&self) -> (r: Vec<TypeId>)
        ensures
            r@ == self.cols().map_values(|c: (TypeId, Seq<Option<C>>)| c.0),
    {
        let mut types: Vec<TypeId> = Vec::new();
        let mut k: usize = 0;
        while k < self.columns.len()
            invariant
                k <= self.columns.len(),
                types@ == self.cols().take(k as int).map_values(
                    |c: (TypeId, Seq<Option<C>>)| c.0,
                ),
            decreases self.columns.len() - k,
        {
            types.push(self.columns[k].stored_type_id());
            proof {
                assert(types@ =~= self.cols().take(k + 1).map_values(
                    |c: (TypeId, Seq<Option<C>>)| c.0,
                ));
            }
            k = k + 1;
        }
        assert(self.cols().take(self.columns.len() as int) == self.cols());
        types
    }
}

} // verus!
