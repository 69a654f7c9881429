use vstd::prelude::*;
use vstd::slice::slice_to_vec;

use crate::error::DbError;
use crate::expr::{
    WhereExpr, decides, pk_bindings, binding_in_row, bindings_spec, binds_view, col_pos,
        columns_read, contains_name,
    equalities_only, eval_spec, holds, lemma_bindings_hold, lemma_col_pos, lemma_col_pos_range,
    lemma_equalities_decide, lemma_eval_no_schema_error, lemma_pk_bindings_sub,
};
use crate::store::{
    ascending, entries_view, lists_map, open_tree, tree_clear, tree_contains, tree_entries,
        tree_get, tree_insert,
    tree_is_empty, tree_map, tree_remove,
};
use crate::typ::{Typ, typ_tag};
use crate::util::serialize_ivec;
use crate::val::{
    Datum, Val, all_encodable, bytes_eq, bytes_lt, data_of, lemma_bytes_lt_asymmetric,
    lemma_bytes_lt_irreflexive, decode_data, encode_data, encode_datum,
    lemma_decode_encode_data,
};

verus! {

/// The names of a list of columns.
pub open spec fn names_of(cols: Seq<(Vec<u8>, Typ)>) -> Seq<Seq<u8>> {
    cols.map_values(|c: (Vec<u8>, Typ)| c.0@)
}

/// The declared types of a list of columns.
pub open spec fn types_of(cols: Seq<(Vec<u8>, Typ)>) -> Seq<Typ> {
    cols.map_values(|c: (Vec<u8>, Typ)| c.1)
}

/// The byte strings of a list of names.
pub open spec fn views_of(v: Seq<Vec<u8>>) -> Seq<Seq<u8>> {
    v.map_values(|b: Vec<u8>| b@)
}

/// No two columns share a name.
pub open spec fn unique(names: Seq<Seq<u8>>) -> bool {
    forall|i: int, j: int| 0 <= i < names.len() && 0 <= j < names.len() && i != j
        ==> names[i] != names[j]
}

/// Every name of `cols` is a column.
pub open spec fn all_in(cols: Seq<Seq<u8>>, names: Seq<Seq<u8>>) -> bool {
    forall|j: int| 0 <= j < cols.len() ==> #[trigger] col_pos(names, cols[j]) is Some
}

/// The row has one value per column, of the column's type, and each value can be encoded.
pub open spec fn fits(row: Seq<Datum>, types: Seq<Typ>) -> bool {
    &&& row.len() == types.len()
    &&& forall|i: int| 0 <= i < row.len()
        ==> (#[trigger] row[i]).typ() == types[i] && row[i].encodable()
}

/// The row's values in the named columns, in the order of `cols`.
pub open spec fn project(row: Seq<Datum>, names: Seq<Seq<u8>>, cols: Seq<Seq<u8>>) -> Seq<Datum> {
    Seq::new(cols.len(), |j: int| row[col_pos(names, cols[j])->Some_0])
}

/// The encoding of the row's values in the named columns: a primary key, or an index tuple.
pub open spec fn key_of(row: Seq<Datum>, names: Seq<Seq<u8>>, cols: Seq<Seq<u8>>) -> Seq<u8> {
    encode_data(project(row, names, cols))
}

/// Each column as its type tag and length-prefixed name.
pub open spec fn columns_record(cols: Seq<(Vec<u8>, Typ)>) -> Seq<u8>
    decreases cols.len(),
{
    if cols.len() == 0 {
        Seq::empty()
    } else {
        columns_record(cols.drop_last()) + seq![typ_tag(cols.last().1)] + prefixed(cols.last().0@)
    }
}

/// Each name length-prefixed.
pub open spec fn names_record(names: Seq<Seq<u8>>) -> Seq<u8>
    decreases names.len(),
{
    if names.len() == 0 {
        Seq::empty()
    } else {
        names_record(names.drop_last()) + prefixed(names.last())
    }
}

/// The binary schema record of a table: its columns, then `;`, then its primary-key names.
pub open spec fn schema_record(cols: Seq<(Vec<u8>, Typ)>, pk: Seq<Seq<u8>>) -> Seq<u8> {
    columns_record(cols) + seq![59u8] + names_record(pk)
}

/// Every column name and primary-key name fits a one-byte length.
pub open spec fn short_names(cols: Seq<(Vec<u8>, Typ)>, pk: Seq<Seq<u8>>) -> bool {
    &&& forall|i: int| 0 <= i < cols.len() ==> (#[trigger] cols[i]).0@.len() <= 255
    &&& forall|i: int| 0 <= i < pk.len() ==> (#[trigger] pk[i]).len() <= 255
}

/// The row has one value per column, of the column's type.
pub open spec fn typed(row: Seq<Datum>, types: Seq<Typ>) -> bool {
    &&& row.len() == types.len()
    &&& forall|i: int| 0 <= i < row.len() ==> (#[trigger] row[i]).typ() == types[i]
}

/// The column names, primary key and index columns make a valid schema.
pub open spec fn valid_schema(cols: Seq<(Vec<u8>, Typ)>, pk: Seq<Seq<u8>>) -> bool {
    &&& unique(names_of(cols))
    &&& pk.len() > 0
    &&& all_in(pk, names_of(cols))
}

/// `new` is `old`, or `old` with `t` mapped to `v`.
pub open spec fn same_or_put(new: Map<Seq<u8>, Seq<u8>>, old: Map<Seq<u8>, Seq<u8>>, t: Seq<u8>,
    v: Seq<u8>) -> bool {
    new == old || new == old.insert(t, v)
}

/// A byte string after its one-byte length.
pub open spec fn prefixed(b: Seq<u8>) -> Seq<u8> {
    seq![b.len() as u8] + b
}

/// The value of the first binding of column `c` at or after position `m` whose value can
/// be encoded.
pub open spec fn pinned_from(bs: Seq<(Seq<u8>, Datum)>, c: Seq<u8>, m: int) -> Option<Datum>
    decreases bs.len() - m,
{
    if m < 0 || m >= bs.len() {
        None
    } else if bs[m].0 == c && bs[m].1.encodable() {
        Some(bs[m].1)
    } else {
        pinned_from(bs, c, m + 1)
    }
}

/// The value that the bindings pin column `c` to: the first binding of `c` whose value can
/// be encoded.
pub open spec fn pinned_value(bs: Seq<(Seq<u8>, Datum)>, c: Seq<u8>) -> Option<Datum> {
    pinned_from(bs, c, 0)
}

/// The encoding of the values that the bindings pin the columns `cols` to, in the order of
/// `cols`; `None` when some column of `cols` is not pinned.
pub open spec fn bound_key_spec(bs: Seq<(Seq<u8>, Datum)>, cols: Seq<Seq<u8>>) -> Option<Seq<u8>>
    decreases cols.len(),
{
    if cols.len() == 0 {
        Some(Seq::empty())
    } else {
        match (bound_key_spec(bs, cols.drop_last()), pinned_value(bs, cols.last())) {
            (Some(k), Some(d)) => Some(k + encode_datum(d)),
            _ => None,
        }
    }
}

/// A key that a prefix of the columns cannot form, the whole list cannot form either.
pub proof fn lemma_bound_key_prefix(bs: Seq<(Seq<u8>, Datum)>, cols: Seq<Seq<u8>>, i: int)
    requires
        0 <= i <= cols.len(),
        bound_key_spec(bs, cols.subrange(0, i)) is None,
    ensures
        bound_key_spec(bs, cols) is None,
    decreases cols.len() - i,
{
    if i == cols.len() {
        assert(cols.subrange(0, i) =~= cols);
    } else {
        assert(cols.subrange(0, i + 1).drop_last() =~= cols.subrange(0, i));
        lemma_bound_key_prefix(bs, cols, i + 1);
    }
}

/// The answer for a row whose evaluation of the predicate gave `v`.
pub open spec fn row_answer(v: Result<Datum, DbError>, row: Seq<Datum>) -> Result<
    Option<Seq<Datum>>,
    DbError,
> {
    match v {
        Ok(Datum::Bool(true)) => Ok(Some(row)),
        Ok(Datum::Bool(false)) => Ok(None),
        Ok(_) => Err(DbError::Type),
        Err(x) => Err(x),
    }
}

/// The values carried by an answer of `select`.
pub open spec fn answer_view(r: Result<Option<Vec<Val>>, DbError>) -> Result<
    Option<Seq<Datum>>,
    DbError,
> {
    match r {
        Ok(Some(row)) => Ok(Some(data_of(row@))),
        Ok(None) => Ok(None),
        Err(e) => Err(e),
    }
}

/// Every binding of `bs` is the row's value in its column.
pub open spec fn satisfies_all(bs: Seq<(Seq<u8>, Datum)>, row: Seq<Datum>,
    names: Seq<Seq<u8>>) -> bool {
    forall|b: (Seq<u8>, Datum)| #[trigger] bs.contains(b) ==> binding_in_row(b, row, names)
}

/// Evaluation of `e` on the row fails with `x`: an error, or a non-boolean where a truth
/// value is needed.
pub open spec fn fails_with(e: WhereExpr, row: Seq<Datum>, names: Seq<Seq<u8>>,
    x: DbError) -> bool {
    ||| eval_spec(e, row, names) == Err::<Datum, DbError>(x)
    ||| x == DbError::Type && eval_spec(e, row, names) is Ok
        && !(eval_spec(e, row, names)->Ok_0 is Bool)
}

/// Every column of `cols` is one of `bound`.
pub open spec fn all_bound(cols: Seq<Seq<u8>>, bound: Seq<Seq<u8>>) -> bool {
    forall|j: int| 0 <= j < cols.len() ==> bound.contains(#[trigger] cols[j])
}

/// A secondary index: the indexed columns, and the tree that maps their encoded values
/// to the primary-key encoding of the row that holds them.
pub struct Index {
    pub columns: Vec<Vec<u8>>,
    pub tree: sled::Tree,
}

/// A typed table stored in a tree of the key-value store.
///
/// `tree` and the trees of `indexes` are the only handles on their trees; a clone of one
/// would let writes bypass the table's invariant.
pub struct Table {
    pub name: Vec<u8>,
    pub col_list: Vec<(Vec<u8>, Typ)>,
    pub primary_key: Vec<Vec<u8>>,
    pub tree: sled::Tree,
    pub indexes: Vec<Index>,
}

impl Table {
    pub open spec fn names(&self) -> Seq<Seq<u8>> {
        names_of(self.col_list@)
    }

    pub open spec fn types(&self) -> Seq<Typ> {
        types_of(self.col_list@)
    }

    pub open spec fn pk(&self) -> Seq<Seq<u8>> {
        views_of(self.primary_key@)
    }

    /// The stored pairs: primary-key encoding to row encoding.
    pub open spec fn rows(&self) -> Map<Seq<u8>, Seq<u8>> {
        tree_map(self.tree)
    }

    pub open spec fn index_cols(&self, i: int) -> Seq<Seq<u8>> {
        views_of(self.indexes@[i].columns@)
    }

    pub open spec fn index_map(&self, i: int) -> Map<Seq<u8>, Seq<u8>> {
        tree_map(self.indexes@[i].tree)
    }

    /// The row stored under key `k`.
    pub open spec fn stored(&self, k: Seq<u8>) -> Seq<Datum> {
        decode_data(self.rows()[k])->Some_0
    }

    /// `row` is stored under some key, satisfies `e`, and no row under a smaller key does.
    pub open spec fn first_match(&self, e: WhereExpr, row: Seq<Datum>) -> bool {
        exists|k: Seq<u8>|
            #[trigger] self.rows().contains_key(k) && self.stored(k) == row
                && holds(e, row, self.names())
                && forall|k2: Seq<u8>|
                #[trigger] self.rows().contains_key(k2) && bytes_lt(k2, k)
                    ==> !holds(e, self.stored(k2), self.names())
    }

    /// The stored pair under `k` is a fitting row whose primary-key encoding is `k`.
    pub open spec fn entry_ok(&self, k: Seq<u8>) -> bool {
        &&& decode_data(self.rows()[k]) is Some
        &&& fits(self.stored(k), self.types())
        &&& key_of(self.stored(k), self.names(), self.pk()) == k
    }

    /// Index `i` maps the indexed values of the row under `k` to `k`.
    pub open spec fn indexed(&self, i: int, k: Seq<u8>) -> bool {
        let t = key_of(self.stored(k), self.names(), self.index_cols(i));
        self.index_map(i).contains_key(t) && self.index_map(i)[t] == k
    }

    pub open spec fn wf(&self) -> bool {
        &&& unique(self.names())
        &&& self.pk().len() > 0
        &&& all_in(self.pk(), self.names())
        &&& forall|i: int| 0 <= i < self.indexes@.len()
            ==> all_in(#[trigger] self.index_cols(i), self.names())
        &&& forall|k: Seq<u8>| #[trigger] self.rows().contains_key(k) ==> self.entry_ok(k)
        &&& forall|i: int, k: Seq<u8>|
            0 <= i < self.indexes@.len() && #[trigger] self.rows().contains_key(k)
                ==> #[trigger] self.indexed(i, k)
    }
}

impl Table {
    /// Register a table in the store's `tables` collection and open the tree that holds its
    /// rows. Whether the name is already registered and whether its tree already holds data
    /// are the store's answers; `admit_table` decides on them.
    pub fn new(
        db: &mut sled::Db,
        name: Vec<u8>,
        columns: Vec<(Vec<u8>, Typ)>,
        primary_key: Vec<Vec<u8>>,
    ) -> (r: Result<Table, DbError>)
        ensures
            r is Ok ==> {
                let t = r->Ok_0;
                &&& t.wf()
                &&& t.name@ == name@
                &&& t.col_list@ == columns@
                &&& t.primary_key@ == primary_key@
                &&& t.indexes@.len() == 0
                &&& t.rows().dom().is_empty()
                &&& table_verdict(name@, columns@, views_of(primary_key@), false, true)
                    == Ok::<(), DbError>(())
            },
            r is Err && r->Err_0 != DbError::Store ==> exists|registered: bool, empty: bool|
                table_verdict(name@, columns@, views_of(primary_key@), registered, empty)
                    == Err::<(), DbError>(r->Err_0),
            !valid_schema(columns@, views_of(primary_key@))
                ==> r == Err::<Table, DbError>(DbError::Schema),
            valid_schema(columns@, views_of(primary_key@))
                && !short_names(columns@, views_of(primary_key@))
                ==> r == Err::<Table, DbError>(DbError::TooLong),
            valid_schema(columns@, views_of(primary_key@))
                && short_names(columns@, views_of(primary_key@))
                && name@ == registry_name_spec() ==> r == Err::<Table, DbError>(DbError::Schema),
    {
        match admit_table(name.as_slice(), &columns, &primary_key, false, true) {
            Ok(()) => {},
            Err(e) => {
                return Err(e);
            },
        }
        let mut record: Vec<u8> = Vec::new();
        match serialize_schema(&columns, &primary_key, &mut record) {
            Ok(()) => {},
            Err(e) => {
                return Err(e);
            },
        }
        let registry_name = registry_name();
        let mut registry = match open_tree(db, registry_name.as_slice()) {
            Ok(t) => t,
            Err(_) => {
                return Err(DbError::Store);
            },
        };
        let registered = match tree_contains(&registry, name.as_slice()) {
            Ok(b) => b,
            Err(_) => {
                return Err(DbError::Store);
            },
        };
        let tree = match open_tree(db, name.as_slice()) {
            Ok(t) => t,
            Err(_) => {
                return Err(DbError::Store);
            },
        };
        let empty = tree_is_empty(&tree);
        match admit_table(name.as_slice(), &columns, &primary_key, registered, empty) {
            Ok(()) => {},
            Err(e) => {
                return Err(e);
            },
        }
        match tree_insert(&mut registry, name.as_slice(), record.as_slice()) {
            Ok(()) => {},
            Err(_) => {
                return Err(DbError::Store);
            },
        }
        let table = Table { name, col_list: columns, primary_key, tree, indexes: Vec::new() };
        Ok(table)
    }

    /// Some index of the table is on exactly the columns `cols`, in that order.
    pub open spec fn has_index_on(&self, cols: Seq<Seq<u8>>) -> bool {
        exists|i: int| 0 <= i < self.indexes@.len() && #[trigger] self.index_cols(i) == cols
    }

    /// Two stored rows have the same values in the columns `cols`.
    pub open spec fn tuples_collide(&self, cols: Seq<Seq<u8>>) -> bool {
        exists|k1: Seq<u8>, k2: Seq<u8>|
            #[trigger] self.rows().contains_key(k1) && #[trigger] self.rows().contains_key(k2)
                && k1 != k2 && key_of(self.stored(k1), self.names(), cols) == key_of(
                self.stored(k2),
                self.names(),
                cols,
            )
    }

    /// The primary-key encoding that `e` pins, when it pins every primary-key column.
    pub open spec fn pinned_key(&self, e: WhereExpr) -> Option<Seq<u8>> {
        bound_key_spec(pk_bindings(e, self.pk()), self.pk())
    }

    /// The answer for predicate `e` when only the row under `key`, if any, can satisfy it.
    pub open spec fn key_answer(&self, e: WhereExpr, k: Seq<u8>) -> Result<
        Option<Seq<Datum>>,
        DbError,
    > {
        if self.rows().contains_key(k) {
            row_answer(eval_spec(e, self.stored(k), self.names()), self.stored(k))
        } else {
            Ok(None)
        }
    }

    /// What `select` may answer for predicate `e`: `Schema` exactly when `e` reads a column
    /// that the table lacks; the stored row with the smallest key among those that satisfy
    /// `e`; `None` only when no stored row satisfies `e`; any other error only as the store's
    /// failure or as the evaluation failure of `e` on some stored row.
    pub open spec fn selected(&self, e: WhereExpr, r: Result<Option<Vec<Val>>, DbError>) -> bool {
        &&& (r == Err::<Option<Vec<Val>>, DbError>(DbError::Schema)
            <==> !all_in(columns_read(e), self.names()))
        &&& r is Ok && r->Ok_0 is Some
            ==> self.first_match(e, data_of(r->Ok_0->Some_0@))
        &&& all_in(columns_read(e), self.names()) && self.pinned_key(e) is Some
            ==> r == Err::<Option<Vec<Val>>, DbError>(DbError::Store)
            || answer_view(r) == self.key_answer(e, self.pinned_key(e)->Some_0)
        &&& r == Ok::<Option<Vec<Val>>, DbError>(None)
            ==> forall|k: Seq<u8>| #[trigger] self.rows().contains_key(k)
            ==> !holds(e, self.stored(k), self.names())
        &&& r is Err && r->Err_0 != DbError::Schema && r->Err_0 != DbError::Store
            ==> exists|k: Seq<u8>| #[trigger] self.rows().contains_key(k)
            && fails_with(e, self.stored(k), self.names(), r->Err_0)
    }

    /// The primary-key encoding of a row.
    pub open spec fn key_for(&self, row: Seq<Datum>) -> Seq<u8> {
        key_of(row, self.names(), self.pk())
    }

    /// The encoding of a row's values in the columns of index `i`.
    pub open spec fn tuple_for(&self, i: int, row: Seq<Datum>) -> Seq<u8> {
        key_of(row, self.names(), self.index_cols(i))
    }

    /// Some index already maps the indexed values of `row`.
    pub open spec fn index_clash(&self, row: Seq<Datum>) -> bool {
        exists|i: int| 0 <= i < self.indexes@.len()
            && #[trigger] self.index_map(i).contains_key(self.tuple_for(i, row))
    }

    /// The parts of the table that stay fixed while rows come in.
    pub open spec fn same_schema(&self, other: &Table) -> bool {
        &&& self.name == other.name
        &&& self.col_list == other.col_list
        &&& self.primary_key == other.primary_key
        &&& self.indexes@.len() == other.indexes@.len()
        &&& forall|i: int| 0 <= i < self.indexes@.len()
            ==> (#[trigger] self.indexes@[i]).columns == other.indexes@[i].columns
    }

    /// Store a row under its primary key, and record it in every index.
    pub fn insert(&mut self, row: Vec<Val>) -> (r: Result<(), DbError>)
        requires
            old(self).wf(),
        ensures
            final(self).wf(),
            final(self).same_schema(old(self)),
            insert_post(*old(self), *final(self), data_of(row@), r),
    {
        let ghost ds = data_of(row@);
        if !row_typed(&self.col_list, &row) {
            return Err(DbError::Schema);
        }
        let bytes = match serialize_row(&row) {
            Ok(b) => b,
            Err(e) => {
                return Err(e);
            },
        };
        let pk = encode_columns(&self.col_list, &row, &self.primary_key);
        match tree_contains(&self.tree, pk.as_slice()) {
            Ok(false) => {},
            Ok(true) => {
                return Err(DbError::KeyConflict);
            },
            Err(_) => {
                return Err(DbError::Store);
            },
        }
        // Check every index before writing to any of them.
        let mut tuples: Vec<Vec<u8>> = Vec::new();
        let mut i: usize = 0;
        while i < self.indexes.len()
            invariant
                self.wf(),
                *self == *old(self),
                ds == data_of(row@),
                fits(ds, self.types()),
                pk@ == self.key_for(ds),
                !self.rows().contains_key(pk@),
                0 <= i <= self.indexes@.len(),
                tuples@.len() == i,
                forall|a: int| 0 <= a < i ==> (#[trigger] tuples@[a])@ == self.tuple_for(a, ds)
                    && !self.index_map(a).contains_key(tuples@[a]@),
            decreases self.indexes@.len() - i,
        {
            assert(all_in(self.index_cols(i as int), self.names()));
            let t = encode_columns(&self.col_list, &row, &self.indexes[i].columns);
            match tree_contains(&self.indexes[i].tree, t.as_slice()) {
                Ok(false) => {},
                Ok(true) => {
                    assert(old(self).index_map(i as int).contains_key(old(self).tuple_for(i as int,
                        ds)));
                    return Err(DbError::IndexIntegrity);
                },
                Err(_) => {
                    return Err(DbError::Store);
                },
            }
            tuples.push(t);
            i = i + 1;
        }
        assert forall|a: int| 0 <= a < old(self).indexes@.len()
            implies !#[trigger] old(self).index_map(a).contains_key(old(self).tuple_for(a, ds)) by {
            assert(tuples@[a]@ == old(self).tuple_for(a, ds));
        }
        assert(!old(self).index_clash(ds));
        let ghost before = *self;
        // Write the index entries, then the row.
        let mut i: usize = 0;
        while i < self.indexes.len()
            invariant
                self.same_schema(&before),
                before == *old(self),
                before.wf(),
                self.tree == before.tree,
                ds == data_of(row@),
                fits(ds, before.types()),
                pk@ == before.key_for(ds),
                !before.rows().contains_key(pk@),
                0 <= i <= self.indexes@.len(),
                tuples@.len() == self.indexes@.len(),
                forall|a: int| 0 <= a < tuples@.len()
                    ==> (#[trigger] tuples@[a])@ == before.tuple_for(a, ds)
                    && !before.index_map(a).contains_key(tuples@[a]@),
                forall|a: int| 0 <= a < i
                    ==> #[trigger] self.index_map(a)
                    == before.index_map(a).insert(tuples@[a]@, pk@),
                forall|a: int| i <= a < self.indexes@.len()
                    ==> #[trigger] self.index_map(a) == before.index_map(a),
                self.wf(),
            decreases self.indexes@.len() - i,
        {
            let ghost prev = *self;
            assert(prev.index_map(i as int) == before.index_map(i as int));
            let res = tree_insert(&mut self.indexes[i].tree, tuples[i].as_slice(), pk.as_slice());
            proof {
                assert(forall|a: int| 0 <= a < self.indexes@.len() && a != i
                    ==> self.indexes@[a] == prev.indexes@[a]);
                assert(self.indexes@[i as int].columns == prev.indexes@[i as int].columns);
                assert(forall|a: int| 0 <= a < self.indexes@.len() && a != i
                    ==> #[trigger] self.index_map(a) == prev.index_map(a));
                assert forall|a: int| 0 <= a < before.indexes@.len() && a != i
                    implies #[trigger] self.index_map(a) == before.index_map(a) || a < i by {
                    if a > i {
                        assert(prev.index_map(a) == before.index_map(a));
                    }
                }
                lemma_index_write_keeps_wf(prev, *self, i as int, tuples@[i as int]@, pk@);
            }
            match res {
                Ok(()) => {},
                Err(_) => {
                    proof {
                        assert forall|a: int| 0 <= a < self.indexes@.len()
                            implies keeps(#[trigger] self.index_map(a), before.index_map(a)) by {
                            if a == i {
                                assert(same_or_put(self.index_map(a), before.index_map(a),
                                    tuples@[a]@, pk@));
                            }
                        }
                    }
                    self.undo_index_writes(Ghost(before), &tuples, i + 1);
                    return Err(DbError::Store);
                },
            }
            i = i + 1;
        }
        let ghost mid = *self;
        let res = tree_insert(&mut self.tree, pk.as_slice(), bytes.as_slice());
        proof {
            lemma_decode_encode_data(ds);
            lemma_row_write_keeps_wf(before, mid, *self, ds, pk@, bytes@);
        }
        match res {
            Ok(()) => {
                assert forall|a: int| 0 <= a < old(self).indexes@.len()
                    implies #[trigger] self.index_map(a)
                    == old(self).index_map(a).insert(old(self).tuple_for(a, ds),
                        old(self).key_for(ds)) by {
                    assert(self.index_map(a) == mid.index_map(a));
                    assert(tuples@[a]@ == before.tuple_for(a, ds));
                }
                Ok(())
            },
            Err(_) => {
                // Take back the row, if it was written, and then its index entries.
                let ghost written = *self;
                let undone = tree_remove(&mut self.tree, pk.as_slice());
                proof {
                    let w = written.rows();
                    let o = before.rows();
                    assert(o.remove(pk@) =~= o);
                    assert(o.insert(pk@, bytes@).remove(pk@) =~= o);
                    assert(w == o || w == o.insert(pk@, bytes@));
                    assert(same_or_put(self.rows(), o, pk@, bytes@));
                    lemma_row_write_keeps_wf(before, mid, *self, ds, pk@, bytes@);
                }
                if undone.is_ok() {
                    proof {
                        assert(self.rows() =~= before.rows());
                        assert forall|a: int| 0 <= a < self.indexes@.len()
                            implies keeps(#[trigger] self.index_map(a), before.index_map(a)) by {
                            assert(self.index_map(a) == mid.index_map(a));
                        }
                    }
                    self.undo_index_writes(Ghost(before), &tuples, tuples.len());
                }
                Err(DbError::Store)
            },
        }
    }

    /// Remove the fresh tuples that the first `upto` indexes were given, as far as the
    /// store allows; what stays is harmless to the invariant.
    fn undo_index_writes(&mut self, base: Ghost<Table>, tuples: &Vec<Vec<u8>>, upto: usize)
        requires
            base@.wf(),
            old(self).same_schema(&base@),
            old(self).rows() == base@.rows(),
            upto <= tuples@.len() == old(self).indexes@.len(),
            forall|a: int| 0 <= a < tuples@.len()
                ==> !base@.index_map(a).contains_key((#[trigger] tuples@[a])@),
            forall|a: int| 0 <= a < old(self).indexes@.len()
                ==> keeps(#[trigger] old(self).index_map(a), base@.index_map(a)),
        ensures
            final(self).wf(),
            final(self).same_schema(&base@),
            final(self).rows() == base@.rows(),
    {
        let mut a: usize = 0;
        while a < upto
            invariant
                base@.wf(),
                self.same_schema(&base@),
                self.rows() == base@.rows(),
                upto <= tuples@.len() == self.indexes@.len(),
                forall|b: int| 0 <= b < tuples@.len()
                    ==> !base@.index_map(b).contains_key((#[trigger] tuples@[b])@),
                forall|b: int| 0 <= b < self.indexes@.len()
                    ==> keeps(#[trigger] self.index_map(b), base@.index_map(b)),
            decreases upto - a,
        {
            let ghost prev = *self;
            let _ = tree_remove(&mut self.indexes[a].tree, tuples[a].as_slice());
            proof {
                assert forall|b: int| 0 <= b < self.indexes@.len()
                    implies keeps(#[trigger] self.index_map(b), base@.index_map(b)) by {
                    if b != a {
                        assert(self.indexes@[b] == prev.indexes@[b]);
                        assert(keeps(prev.index_map(b), base@.index_map(b)));
                    } else {
                        assert(keeps(prev.index_map(b), base@.index_map(b)));
                        assert(!base@.index_map(b).contains_key(tuples@[b]@));
                    }
                }
                assert(self.indexes@[a as int].columns == prev.indexes@[a as int].columns);
            }
            a = a + 1;
        }
        proof {
            lemma_keeps_wf(base@, *self);
        }
    }

    /// A stored row that satisfies the predicate, or `None`. The row is fetched by primary
    /// key when the predicate pins every primary-key column to a literal, else through the
    /// first index all of whose columns it pins, else by scanning the rows in key order and
    /// taking the first that satisfies it. The first two paths check the fetched row against
    /// the whole predicate, so they answer as the scan would on rows where it gives a truth
    /// value.
    pub fn select(&self, expr: WhereExpr) -> (r: Result<Option<Vec<Val>>, DbError>)
        requires
            self.wf(),
        ensures
            self.selected(expr, r),
    {
        if !expr.columns_known(self) {
            return Err(DbError::Schema);
        }
        let ghost names = self.names();
        let pk_binds = expr.lookup_by_pk(self);
        match self.select_by_pk(&pk_binds) {
            Some(key) => {
                proof {
                    assert forall|k: Seq<u8>| #[trigger] self.rows().contains_key(k)
                        && holds(expr, self.stored(k), names) implies k == key@ by {
                        assert(self.entry_ok(k));
                        lemma_bindings_hold(expr, self.stored(k), names);
                        assert forall|b: (Seq<u8>,
                            Datum)| #[trigger] binds_view(pk_binds@).contains(b)
                            implies binding_in_row(b, self.stored(k), names) by {
                            let m = choose|m: int| 0 <= m < binds_view(pk_binds@).len()
                                && binds_view(pk_binds@)[m] == b;
                            lemma_pk_bindings_sub(expr, self.pk(), m);
                        }
                        assert(satisfies_all(binds_view(pk_binds@), self.stored(k), names));
                        assert(names.len() == self.types().len());
                    }
                }
                return self.fetch_and_check(key.as_slice(), &expr);
            },
            None => {},
        }
        let binds = expr.bindings();
        let bound = bound_names(&binds);
        match self.match_index(&bound) {
            Some(i) => {
                proof {
                    assert(all_in(self.index_cols(i as int), names));
                }
                match self.bound_key(&binds, &self.indexes[i].columns) {
                    Some(tuple) => {
                        proof {
                            assert forall|k: Seq<u8>| #[trigger] self.rows().contains_key(k)
                                && holds(expr, self.stored(k), names)
                                implies self.tuple_for(i as int, self.stored(k)) == tuple@ by {
                                assert(self.entry_ok(k));
                                lemma_bindings_hold(expr, self.stored(k), names);
                                assert(satisfies_all(binds_view(binds@), self.stored(k), names));
                                assert(names.len() == self.types().len());
                            }
                        }
                        match tree_get(&self.indexes[i].tree, tuple.as_slice()) {
                            Ok(Some(key)) => {
                                proof {
                                    assert forall|k: Seq<u8>| #[trigger] self.rows().contains_key(k) && holds(expr, self.stored(k), names) implies k == key@ by {
                                        assert(self.indexed(i as int, k));
                                    }
                                }
                                return self.fetch_and_check(key.as_slice(), &expr);
                            },
                            Ok(None) => {
                                proof {
                                    assert forall|k: Seq<u8>| #[trigger] self.rows().contains_key(k) implies !holds(expr, self.stored(k), names) by {
                                        assert(self.indexed(i as int, k));
                                    }
                                }
                                return Ok(None);
                            },
                            Err(_) => {
                                return Err(DbError::Store);
                            },
                        }
                    },
                    None => {},
                }
            },
            None => {},
        }
        self.scan_select(&expr)
    }

    /// The primary-key encoding that the bindings pin, if they pin every primary-key column.
    fn select_by_pk(&self, pk: &Vec<(Vec<u8>, Val)>) -> (r: Option<Vec<u8>>)
        requires
            self.wf(),
        ensures
            match r {
                Some(k) => bound_key_spec(binds_view(pk@), self.pk()) == Some(k@),
                None => bound_key_spec(binds_view(pk@), self.pk()) is None,
            },
            r is Some ==> forall|row: Seq<Datum>|
                #[trigger] satisfies_all(binds_view(pk@), row, self.names())
                    && row.len() == self.names().len() ==> self.key_for(row) == r->Some_0@,
    {
        self.bound_key(pk, &self.primary_key)
    }

    /// The encoding of the values that the bindings pin in the columns `cols`, if they pin
    /// each of them.
    fn bound_key(&self, binds: &Vec<(Vec<u8>, Val)>, cols: &Vec<Vec<u8>>) -> (r: Option<Vec<u8>>)
        requires
            all_in(views_of(cols@), self.names()),
        ensures
            match r {
                Some(k) => bound_key_spec(binds_view(binds@), views_of(cols@)) == Some(k@),
                None => bound_key_spec(binds_view(binds@), views_of(cols@)) is None,
            },
            r is Some ==> forall|row: Seq<Datum>|
                #[trigger] satisfies_all(binds_view(binds@), row, self.names())
                    && row.len() == self.names().len()
                    ==> key_of(row, self.names(), views_of(cols@)) == r->Some_0@,
    {
        let ghost names = self.names();
        let ghost bv = binds_view(binds@);
        let ghost cv = views_of(cols@);
        let mut out: Vec<u8> = Vec::new();
        let mut j: usize = 0;
        proof {
            assert(cv.subrange(0, 0) =~= Seq::<Seq<u8>>::empty());
            assert forall|row: Seq<Datum>| #[trigger] satisfies_all(bv, row, names)
                && row.len() == names.len()
                implies encode_data(project(row, names, cv.subrange(0, 0))) == out@ by {
                assert(project(row, names, cv.subrange(0, 0)) =~= Seq::<Datum>::empty());
            }
        }
        while j < cols.len()
            invariant
                0 <= j <= cols@.len(),
                names == self.names(),
                bv == binds_view(binds@),
                cv == views_of(cols@),
                all_in(cv, names),
                bound_key_spec(bv, cv.subrange(0, j as int)) == Some(out@),
                forall|row: Seq<Datum>| #[trigger] satisfies_all(bv, row, names)
                    && row.len() == names.len()
                    ==> encode_data(project(row, names, cv.subrange(0, j as int))) == out@,
            decreases cols@.len() - j,
        {
            proof {
                assert(cv.subrange(0, j + 1).drop_last() =~= cv.subrange(0, j as int));
                assert(cv.subrange(0, j + 1).last() == cv[j as int]);
            }
            let m = match find_binding(binds, cols[j].as_slice()) {
                Some(m) => m,
                None => {
                    proof {
                        lemma_bound_key_prefix(bv, cv, j + 1);
                    }
                    return None;
                },
            };
            let ghost before = out@;
            let ghost d = binds@[m as int].1@;
            match binds[m].1.serialize(&mut out) {
                Ok(()) => {},
                Err(_) => {
                    return None;
                },
            }
            proof {
                assert(bv[m as int] == (cv[j as int], d));
                assert forall|row: Seq<Datum>| #[trigger] satisfies_all(bv, row, names)
                    && row.len() == names.len()
                    implies encode_data(project(row, names, cv.subrange(0, j + 1))) == out@ by {
                    assert(bv.contains(bv[m as int]));
                    assert(binding_in_row(bv[m as int], row, names));
                    let p = col_pos(names, cv[j as int])->Some_0;
                    assert(row[p] == d);
                    let prev = project(row, names, cv.subrange(0, j as int));
                    assert(project(row, names, cv.subrange(0, j + 1)) =~= prev.push(d));
                    lemma_encode_data_push(prev, d);
                }
            }
            j = j + 1;
        }
        proof {
            assert(cv.subrange(0, j as int) =~= cv);
        }
        Some(out)
    }

    /// The first index all of whose columns are among `bound`.
    pub fn match_index(&self, bound: &Vec<Vec<u8>>) -> (r: Option<usize>)
        ensures
            r matches Some(i) ==> 0 <= i < self.indexes@.len()
                && all_bound(self.index_cols(i as int), views_of(bound@)),
            r matches Some(i) ==> forall|j: int| 0 <= j < i
                ==> !all_bound(#[trigger] self.index_cols(j), views_of(bound@)),
            r is None ==> forall|j: int| 0 <= j < self.indexes@.len()
                ==> !all_bound(#[trigger] self.index_cols(j), views_of(bound@)),
    {
        let mut i: usize = 0;
        while i < self.indexes.len()
            invariant
                0 <= i <= self.indexes@.len(),
                forall|j: int| 0 <= j < i
                    ==> !all_bound(#[trigger] self.index_cols(j), views_of(bound@)),
            decreases self.indexes@.len() - i,
        {
            match first_missing(bound, &self.indexes[i].columns) {
                None => {
                    return Some(i);
                },
                Some(c) => {
                    assert(!views_of(bound@).contains(self.index_cols(i as int)[c as int]));
                },
            }
            i = i + 1;
        }
        None
    }

    /// Fetch the row stored under `key` and keep it if it satisfies the predicate.
    fn fetch_and_check(&self, key: &[u8], expr: &WhereExpr) -> (r: Result<Option<Vec<Val>>,
        DbError>)
        requires
            self.wf(),
            all_in(columns_read(*expr), self.names()),
            forall|k: Seq<u8>| #[trigger] self.rows().contains_key(k)
                && holds(*expr, self.stored(k), self.names()) ==> k == key@,
            self.pinned_key(*expr) is Some ==> self.pinned_key(*expr)->Some_0 == key@,
        ensures
            self.selected(*expr, r),
    {
        match tree_get(&self.tree, key) {
            Ok(Some(bytes)) => {
                let r = self.satisfies_expr(key, bytes.as_slice(), expr);
                proof {
                    if r is Ok && r->Ok_0 is Some {
                        lemma_bytes_lt_irreflexive(key@);
                        assert(self.rows().contains_key(key@)
                            && self.stored(key@) == data_of(r->Ok_0->Some_0@));
                    }
                    if r is Err {
                        assert(self.rows().contains_key(key@));
                    }
                }
                r
            },
            Ok(None) => Ok(None),
            Err(_) => Err(DbError::Store),
        }
    }

    /// Decode the row stored under `key` and keep it if it satisfies the predicate.
    fn satisfies_expr(&self, key: &[u8], bytes: &[u8], expr: &WhereExpr) -> (r: Result<
        Option<Vec<Val>>,
        DbError,
    >)
        requires
            self.wf(),
            all_in(columns_read(*expr), self.names()),
            self.rows().contains_key(key@),
            self.rows()[key@] == bytes@,
        ensures
            r is Ok && r->Ok_0 is Some
                ==> data_of(r->Ok_0->Some_0@) == self.stored(key@)
                && holds(*expr, self.stored(key@), self.names()),
            r == Ok::<Option<Vec<Val>>, DbError>(None)
                ==> eval_spec(*expr, self.stored(key@), self.names())
                == Ok::<Datum, DbError>(Datum::Bool(false)),
            r is Err ==> r->Err_0 != DbError::Schema
                && fails_with(*expr, self.stored(key@), self.names(), r->Err_0),
            answer_view(r) == self.key_answer(*expr, key@),
    {
        proof {
            assert(self.entry_ok(key@));
            assert(self.names().len() == self.types().len());
        }
        let row = match deserialize_row(bytes) {
            Ok(row) => row,
            Err(e) => {
                return Err(e);
            },
        };
        proof {
            lemma_eval_no_schema_error(*expr, data_of(row@), self.names());
        }
        match expr.eval(&row, self) {
            Ok(Val::Boolean(true)) => Ok(Some(row)),
            Ok(Val::Boolean(false)) => Ok(None),
            Ok(_) => Err(DbError::Type),
            Err(x) => Err(x),
        }
    }

    /// Scan every stored row for the first that satisfies the predicate.
    fn scan_select(&self, expr: &WhereExpr) -> (r: Result<Option<Vec<Val>>, DbError>)
        requires
            self.wf(),
            all_in(columns_read(*expr), self.names()),
            self.pinned_key(*expr) is None,
        ensures
            self.selected(*expr, r),
    {
        let entries = match tree_entries(&self.tree) {
            Ok(es) => es,
            Err(_) => {
                return Err(DbError::Store);
            },
        };
        let ghost ev = entries_view(entries@);
        let mut j: usize = 0;
        while j < entries.len()
            invariant
                0 <= j <= entries@.len(),
                self.wf(),
                all_in(columns_read(*expr), self.names()),
                ev == entries_view(entries@),
                self.pinned_key(*expr) is None,
                lists_map(ev, self.rows()),
                ascending(ev),
                forall|m: int| 0 <= m < j
                    ==> !holds(*expr, self.stored(#[trigger] ev[m].0), self.names()),
            decreases entries@.len() - j,
        {
            let ghost k = ev[j as int].0;
            assert(ev[j as int] == (entries@[j as int].0@, entries@[j as int].1@));
            assert(self.rows().contains_key(k));
            assert(self.rows()[k] == entries@[j as int].1@);
            let res = self.satisfies_expr(entries[j].0.as_slice(), entries[j].1.as_slice(), expr);
            match res {
                Ok(Some(row)) => {
                    proof {
                        assert(ascending(ev));
                        assert forall|k2: Seq<u8>|
                            #[trigger] self.rows().contains_key(k2) && bytes_lt(k2, k)
                                implies !holds(
                            *expr,
                            self.stored(k2),
                            self.names(),
                        ) by {
                            let m = choose|m: int| 0 <= m < ev.len() && ev[m].0 == k2;
                            if m == j {
                                lemma_bytes_lt_irreflexive(k);
                            } else if m > j {
                                assert(bytes_lt(ev[j as int].0, ev[m].0));
                                lemma_bytes_lt_asymmetric(k, k2);
                            }
                        }
                        assert(self.rows().contains_key(k) && self.stored(k) == data_of(row@));
                    }
                    return Ok(Some(row));
                },
                Ok(None) => {},
                Err(x) => {
                    return Err(x);
                },
            }
            j = j + 1;
        }
        proof {
            assert forall|k: Seq<u8>| #[trigger] self.rows().contains_key(k)
                implies !holds(*expr, self.stored(k), self.names()) by {
                let m = choose|m: int| 0 <= m < ev.len() && ev[m].0 == k;
            }
        }
        Ok(None)
    }

    /// Add a secondary index on `columns`, filled with every row already stored.
    ///
    /// Its tree is named by the table's name, a zero byte and the length-prefixed column
    /// names, and is recorded in the `tables` collection once filled. The table owns the
    /// only index on a given column list, so a tree of that name can only be left over from
    /// an attempt that failed: it is cleared first, and cleared again when filling fails.
    pub fn create_index(&mut self, db: &sled::Db, columns: Vec<Vec<u8>>) -> (r: Result<(), DbError>)
        requires
            old(self).wf(),
        ensures
            final(self).wf(),
            final(self).name == old(self).name,
            final(self).col_list == old(self).col_list,
            final(self).primary_key == old(self).primary_key,
            final(self).rows() == old(self).rows(),
            r is Ok ==> final(self).indexes@.len() == old(self).indexes@.len() + 1
                && final(self).indexes@.drop_last() == old(self).indexes@
                && final(self).indexes@.last().columns@ == columns@,
            r is Err ==> final(self).indexes == old(self).indexes,
            (r == Err::<(), DbError>(DbError::Schema) <==> columns@.len() == 0
                || !all_in(views_of(columns@), old(self).names())
                || old(self).has_index_on(views_of(columns@))),
            r == Err::<(), DbError>(DbError::TooLong) ==> exists|c: int|
                0 <= c < columns@.len() && (#[trigger] columns@[c])@.len() > 255,
            r == Err::<(), DbError>(DbError::IndexIntegrity)
                ==> old(self).tuples_collide(views_of(columns@)),
            r is Ok ==> !old(self).tuples_collide(views_of(columns@)),
            r is Err ==> r->Err_0 == DbError::Schema || r->Err_0 == DbError::TooLong
                || r->Err_0 == DbError::IndexIntegrity || r->Err_0 == DbError::Store,
    {
        let ghost names = self.names();
        let ghost cv = views_of(columns@);
        if columns.len() == 0 {
            return Err(DbError::Schema);
        }
        let mut c: usize = 0;
        while c < columns.len()
            invariant
                0 <= c <= columns@.len(),
                self.wf(),
                *self == *old(self),
                names == self.names(),
                cv == views_of(columns@),
                forall|a: int| 0 <= a < c ==> #[trigger] col_pos(names, cv[a]) is Some,
            decreases columns@.len() - c,
        {
            if column_position(&self.col_list, columns[c].as_slice()).is_none() {
                assert(col_pos(names, cv[c as int]) is None);
                return Err(DbError::Schema);
            }
            c = c + 1;
        }
        assert(all_in(cv, names));
        let mut i: usize = 0;
        while i < self.indexes.len()
            invariant
                0 <= i <= self.indexes@.len(),
                self.wf(),
                *self == *old(self),
                cv == views_of(columns@),
                forall|a: int| 0 <= a < i ==> #[trigger] self.index_cols(a) != cv,
            decreases self.indexes@.len() - i,
        {
            if same_names(&self.indexes[i].columns, &columns) {
                assert(self.index_cols(i as int) == cv);
                return Err(DbError::Schema);
            }
            i = i + 1;
        }
        assert(!self.has_index_on(cv));
        let mut tree_name: Vec<u8> = slice_to_vec(self.name.as_slice());
        tree_name.push(0u8);
        let mut c: usize = 0;
        while c < columns.len()
            invariant
                0 <= c <= columns@.len(),
                self.wf(),
                *self == *old(self),
                names == self.names(),
                cv == views_of(columns@),
                all_in(cv, names),
                !self.has_index_on(cv),
                columns@.len() > 0,
            decreases columns@.len() - c,
        {
            match serialize_ivec(columns[c].as_slice(), &mut tree_name) {
                Ok(()) => {},
                Err(e) => {
                    assert(columns@[c as int]@.len() > 255);
                    return Err(e);
                },
            }
            c = c + 1;
        }
        // A tree of this name is only left over from an attempt that failed; start afresh.
        let mut tree = match open_tree(db, tree_name.as_slice()) {
            Ok(t) => t,
            Err(_) => {
                return Err(DbError::Store);
            },
        };
        match tree_clear(&mut tree) {
            Ok(()) => {},
            Err(_) => {
                return Err(DbError::Store);
            },
        }
        let entries = match tree_entries(&self.tree) {
            Ok(es) => es,
            Err(_) => {
                return Err(DbError::Store);
            },
        };
        let ghost ev = entries_view(entries@);
        let mut j: usize = 0;
        while j < entries.len()
            invariant
                self.wf(),
                *self == *old(self),
                names == self.names(),
                cv == views_of(columns@),
                all_in(cv, names),
                0 <= j <= entries@.len(),
                ev == entries_view(entries@),
                !self.has_index_on(cv),
                lists_map(ev, self.rows()),
                columns@.len() > 0,
                forall|m: int| 0 <= m < j
                    ==> #[trigger] tree_map(tree).contains_key(key_of(self.stored(ev[m].0), names,
                    cv))
                    && tree_map(tree)[key_of(self.stored(ev[m].0), names, cv)] == ev[m].0,
                forall|t: Seq<u8>| #[trigger] tree_map(tree).contains_key(t)
                    ==> exists|m: int| 0 <= m < j
                    && t == key_of(self.stored(#[trigger] ev[m].0), names, cv),
            decreases entries@.len() - j,
        {
            let ghost k = ev[j as int].0;
            assert(ev[j as int] == (entries@[j as int].0@, entries@[j as int].1@));
            assert(self.rows().contains_key(k));
            assert(self.entry_ok(k));
            let row = match deserialize_row(entries[j].1.as_slice()) {
                Ok(row) => row,
                Err(e) => {
                    return Err(e);
                },
            };
            let t = encode_columns(&self.col_list, &row, &columns);
            match tree_contains(&tree, t.as_slice()) {
                Ok(false) => {},
                Ok(true) => {
                    proof {
                        let m = choose|m: int| 0 <= m < j
                            && t@ == key_of(self.stored(#[trigger] ev[m].0), names, cv);
                        assert(ev[m].0 != k);
                        assert(self.rows().contains_key(ev[m].0));
                    }
                    let _ = tree_clear(&mut tree);
                    return Err(DbError::IndexIntegrity);
                },
                Err(_) => {
                    let _ = tree_clear(&mut tree);
                    return Err(DbError::Store);
                },
            }
            let ghost prev = tree_map(tree);
            match tree_insert(&mut tree, t.as_slice(), entries[j].0.as_slice()) {
                Ok(()) => {},
                Err(_) => {
                    let _ = tree_clear(&mut tree);
                    return Err(DbError::Store);
                },
            }
            proof {
                assert forall|m: int| 0 <= m < j + 1
                    implies #[trigger] tree_map(tree).contains_key(key_of(self.stored(ev[m].0),
                    names, cv))
                    && tree_map(tree)[key_of(self.stored(ev[m].0), names, cv)] == ev[m].0 by {
                    if m < j {
                        assert(prev.contains_key(key_of(self.stored(ev[m].0), names, cv)));
                    }
                }
                assert forall|t2: Seq<u8>| #[trigger] tree_map(tree).contains_key(t2)
                    implies exists|m: int| 0 <= m < j + 1
                    && t2 == key_of(self.stored(#[trigger] ev[m].0), names, cv) by {
                    if t2 != t@ {
                        assert(prev.contains_key(t2));
                    } else {
                        assert(t2 == key_of(self.stored(ev[j as int].0), names, cv));
                    }
                }
            }
            j = j + 1;
        }
        let registry_name = registry_name();
        let mut registry = match open_tree(db, registry_name.as_slice()) {
            Ok(t) => t,
            Err(_) => {
                let _ = tree_clear(&mut tree);
                return Err(DbError::Store);
            },
        };
        match tree_insert(&mut registry, tree_name.as_slice(), tree_name.as_slice()) {
            Ok(()) => {},
            Err(_) => {
                let _ = tree_clear(&mut tree);
                return Err(DbError::Store);
            },
        }
        let ghost before = *self;
        self.indexes.push(Index { columns, tree });
        proof {
            let n = before.indexes@.len() as int;
            assert(self.indexes@.drop_last() =~= before.indexes@);
            assert(self.index_cols(n) == cv);
            assert forall|i: int| 0 <= i < n
                implies self.index_cols(i) == before.index_cols(i)
                && self.index_map(i) == before.index_map(i) by {
                assert(self.indexes@[i] == before.indexes@[i]);
            }
            assert forall|i: int, k: Seq<u8>| 0 <= i < self.indexes@.len()
                && #[trigger] self.rows().contains_key(k) implies #[trigger] self.indexed(i, k) by {
                if i < n {
                    assert(before.indexed(i, k));
                } else {
                    let m = choose|m: int| 0 <= m < ev.len() && ev[m].0 == k;
                    assert(tree_map(tree).contains_key(key_of(before.stored(ev[m].0), names, cv)));
                    assert(self.index_map(i) == tree_map(tree));
                    assert(self.stored(k) == before.stored(k));
                }
            }
            assert forall|i: int| 0 <= i < self.indexes@.len()
                implies all_in(#[trigger] self.index_cols(i), self.names()) by {
                if i < n {
                    assert(all_in(before.index_cols(i), before.names()));
                }
            }
            assert forall|k1: Seq<u8>, k2: Seq<u8>|
                #[trigger] before.rows().contains_key(k1)
                    && #[trigger] before.rows().contains_key(k2)
                    && key_of(before.stored(k1), names, cv) == key_of(before.stored(k2), names, cv)
                implies k1 == k2 by {
                assert(self.indexed(n, k1));
                assert(self.indexed(n, k2));
            }
        }
        Ok(())
    }

    /// Append the binary schema record of this table to `out`.
    pub fn serialize(&self, out: &mut Vec<u8>) -> (r: Result<(), DbError>)
        ensures
            short_names(self.col_list@, self.pk()) ==> r == Ok::<(), DbError>(()) && final(out)@
                == old(out)@ + schema_record(self.col_list@, self.pk()),
            !short_names(self.col_list@, self.pk()) ==> r == Err::<(), DbError>(DbError::TooLong),
    {
        serialize_schema(&self.col_list, &self.primary_key, out)
    }
}

/// Whether the names are unique and the primary key is a non-empty list of columns.
fn schema_is_valid(columns: &Vec<(Vec<u8>, Typ)>, primary_key: &Vec<Vec<u8>>) -> (r: bool)
    ensures
        r == valid_schema(columns@, views_of(primary_key@)),
{
    let ghost names = names_of(columns@);
    let mut i: usize = 0;
    while i < columns.len()
        invariant
            0 <= i <= columns@.len(),
            names == names_of(columns@),
            forall|a: int, b: int| 0 <= a < i && 0 <= b < i && a != b ==> names[a] != names[b],
        decreases columns@.len() - i,
    {
        let p = column_position(columns, columns[i].0.as_slice());
        proof {
            lemma_col_pos_range(names, names[i as int]);
        }
        match p {
            Some(p) => if p != i {
                assert(names[p as int] == names[i as int]);
                return false;
            },
            None => {
                return false;
            },
        }
        i = i + 1;
    }
    if primary_key.len() == 0 {
        return false;
    }
    let ghost pk = views_of(primary_key@);
    let mut j: usize = 0;
    while j < primary_key.len()
        invariant
            0 <= j <= primary_key@.len(),
            names == names_of(columns@),
            pk == views_of(primary_key@),
            unique(names),
            forall|b: int| 0 <= b < j ==> #[trigger] col_pos(names, pk[b]) is Some,
        decreases primary_key@.len() - j,
    {
        match column_position(columns, primary_key[j].as_slice()) {
            Some(_) => {},
            None => {
                assert(col_pos(names, pk[j as int]) is None);
                return false;
            },
        }
        j = j + 1;
    }
    true
}

/// Append the schema record of these columns and primary key to `out`.
fn serialize_schema(columns: &Vec<(Vec<u8>, Typ)>, primary_key: &Vec<Vec<u8>>,
    out: &mut Vec<u8>) -> (r: Result<(), DbError>)
    ensures
        short_names(columns@, views_of(primary_key@)) ==> r == Ok::<(), DbError>(()) && final(out)@
            == old(out)@ + schema_record(columns@, views_of(primary_key@)),
        !short_names(columns@, views_of(primary_key@))
            ==> r == Err::<(), DbError>(DbError::TooLong),
{
    let ghost start = out@;
    let mut i: usize = 0;
    while i < columns.len()
        invariant
            0 <= i <= columns@.len(),
            out@ == start + columns_record(columns@.subrange(0, i as int)),
            forall|a: int| 0 <= a < i ==> (#[trigger] columns@[a]).0@.len() <= 255,
        decreases columns@.len() - i,
    {
        let ghost before = out@;
        out.push(columns[i].1.serialize());
        match serialize_ivec(columns[i].0.as_slice(), out) {
            Ok(()) => {},
            Err(e) => {
                return Err(e);
            },
        }
        proof {
            let sub = columns@.subrange(0, i + 1);
            assert(sub.drop_last() =~= columns@.subrange(0, i as int));
            assert(out@ =~= start + columns_record(sub));
        }
        i = i + 1;
    }
    assert(columns@.subrange(0, i as int) =~= columns@);
    out.push(59u8);
    let ghost mid = out@;
    let ghost pk = views_of(primary_key@);
    let mut j: usize = 0;
    while j < primary_key.len()
        invariant
            0 <= j <= primary_key@.len(),
            pk == views_of(primary_key@),
            mid == start + columns_record(columns@) + seq![59u8],
            out@ == mid + names_record(pk.subrange(0, j as int)),
            forall|a: int| 0 <= a < columns@.len() ==> (#[trigger] columns@[a]).0@.len() <= 255,
            forall|a: int| 0 <= a < j ==> (#[trigger] pk[a]).len() <= 255,
        decreases primary_key@.len() - j,
    {
        match serialize_ivec(primary_key[j].as_slice(), out) {
            Ok(()) => {},
            Err(e) => {
                assert(pk[j as int].len() > 255);
                return Err(e);
            },
        }
        proof {
            let sub = pk.subrange(0, j + 1);
            assert(sub.drop_last() =~= pk.subrange(0, j as int));
            assert(out@ =~= mid + names_record(sub));
        }
        j = j + 1;
    }
    assert(pk.subrange(0, j as int) =~= pk);
    assert(out@ =~= start + schema_record(columns@, pk));
    Ok(())
}

/// Every pair of `base` is in `new`.
pub open spec fn keeps(new: Map<Seq<u8>, Seq<u8>>, base: Map<Seq<u8>, Seq<u8>>) -> bool {
    forall|x: Seq<u8>| #[trigger] base.contains_key(x) ==> new.contains_key(x) && new[x] == base[x]
}

/// With the same rows, indexes that keep every pair they had keep the table well formed.
proof fn lemma_keeps_wf(base: Table, t: Table)
    requires
        base.wf(),
        t.same_schema(&base),
        t.rows() == base.rows(),
        forall|a: int| 0 <= a < t.indexes@.len()
            ==> keeps(#[trigger] t.index_map(a), base.index_map(a)),
    ensures
        t.wf(),
{
    assert(t.names() == base.names());
    assert(t.pk() == base.pk());
    assert(t.types() == base.types());
    assert forall|a: int| 0 <= a < t.indexes@.len()
        implies t.index_cols(a) == base.index_cols(a) by {}
    assert forall|a: int, k: Seq<u8>| 0 <= a < t.indexes@.len()
        && #[trigger] t.rows().contains_key(k)
        implies #[trigger] t.indexed(a, k) by {
        assert(base.indexed(a, k));
        assert(t.index_cols(a) == base.index_cols(a));
        assert(keeps(t.index_map(a), base.index_map(a)));
        assert(t.stored(k) == base.stored(k));
    }
    assert forall|a: int| 0 <= a < t.indexes@.len()
        implies all_in(#[trigger] t.index_cols(a), t.names()) by {
        assert(t.index_cols(a) == base.index_cols(a));
    }
}

/// Writing a fresh tuple into index `i` keeps the table well formed, whether or not the
/// write took effect.
proof fn lemma_index_write_keeps_wf(before: Table, after: Table, i: int, t: Seq<u8>, k: Seq<u8>)
    requires
        before.wf(),
        after.same_schema(&before),
        after.tree == before.tree,
        0 <= i < before.indexes@.len(),
        !before.index_map(i).contains_key(t),
        same_or_put(after.index_map(i), before.index_map(i), t, k),
        forall|a: int| 0 <= a < before.indexes@.len() && a != i
            ==> #[trigger] after.index_map(a) == before.index_map(a),
    ensures
        after.wf(),
{
    assert(after.names() == before.names());
    assert(after.pk() == before.pk());
    assert(after.types() == before.types());
    assert forall|a: int| 0 <= a < after.indexes@.len()
        implies after.index_cols(a) == before.index_cols(a) by {}
    assert forall|a: int, key: Seq<u8>| 0 <= a < after.indexes@.len()
        && #[trigger] after.rows().contains_key(key) implies #[trigger] after.indexed(a, key) by {
        assert(after.index_cols(a) == before.index_cols(a));
        assert(before.rows().contains_key(key));
        assert(before.indexed(a, key));
        assert(after.stored(key) == before.stored(key));
        if a == i {
            let tk = before.tuple_for(a, before.stored(key));
            assert(tk != t);
            assert(after.index_map(a).contains_key(tk));
            assert(after.index_map(a)[tk] == key);
        }
    }
}

/// Writing a new row whose index entries are all in place keeps the table well formed,
/// whether or not the write took effect.
proof fn lemma_row_write_keeps_wf(before: Table, mid: Table, after: Table, ds: Seq<Datum>,
    k: Seq<u8>, v: Seq<u8>)
    requires
        before.wf(),
        mid.same_schema(&before),
        after.same_schema(&before),
        mid.tree == before.tree,
        after.indexes == mid.indexes,
        fits(ds, before.types()),
        k == before.key_for(ds),
        v == encode_data(ds),
        decode_data(v) == Some(ds),
        !before.rows().contains_key(k),
        forall|a: int| 0 <= a < before.indexes@.len()
            ==> #[trigger] mid.index_map(a)
            == before.index_map(a).insert(before.tuple_for(a, ds), k),
        forall|a: int| 0 <= a < before.indexes@.len()
            ==> !before.index_map(a).contains_key(#[trigger] before.tuple_for(a, ds)),
        same_or_put(after.rows(), before.rows(), k, v),
    ensures
        after.wf(),
{
    assert(after.names() == before.names());
    assert(after.pk() == before.pk());
    assert(after.types() == before.types());
    assert forall|a: int| 0 <= a < after.indexes@.len()
        implies after.index_cols(a) == before.index_cols(a) by {}
    assert forall|a: int| 0 <= a < after.indexes@.len()
        implies #[trigger] after.index_map(a) == mid.index_map(a) by {}
    assert forall|key: Seq<u8>| #[trigger] after.rows().contains_key(key)
        implies after.entry_ok(key) by {
        if key != k {
            assert(before.entry_ok(key));
        }
    }
    assert forall|a: int, key: Seq<u8>| 0 <= a < after.indexes@.len()
        && #[trigger] after.rows().contains_key(key) implies #[trigger] after.indexed(a, key) by {
        assert(after.index_cols(a) == before.index_cols(a));
        assert(after.index_map(a) == before.index_map(a).insert(before.tuple_for(a, ds), k));
        assert(!before.index_map(a).contains_key(before.tuple_for(a, ds)));
        if key != k {
            assert(before.rows().contains_key(key));
            assert(before.indexed(a, key));
            assert(after.stored(key) == before.stored(key));
        } else {
            assert(after.rows()[k] == v);
            assert(after.stored(key) == ds);
        }
    }
}

/// What `insert` of a row with values `ds` into `old` answers and leaves as `new`: `Schema`
/// for a row that does not fit the columns, `TooLong` for a value that cannot be encoded,
/// `KeyConflict` exactly when the primary key is taken, `IndexIntegrity` only when an index
/// already maps the row's indexed values; on success the row is stored under its key and
/// every index maps its values to that key; on any failure but the store's, nothing changes.
pub open spec fn insert_post(
    old: Table,
    new: Table,
    ds: Seq<Datum>,
    r: Result<(), DbError>,
) -> bool {
    &&& (r == Err::<(), DbError>(DbError::Schema) <==> !typed(ds, old.types()))
    &&& (r == Err::<(), DbError>(DbError::TooLong) <==> typed(ds, old.types())
        && !all_encodable(ds))
    &&& r == Err::<(), DbError>(DbError::KeyConflict) <==> fits(ds, old.types())
            && old.rows().contains_key(old.key_for(ds)) && r != Err::<(), DbError>(DbError::Store)
    &&& r == Err::<(), DbError>(DbError::IndexIntegrity) ==> fits(ds, old.types())
            && !old.rows().contains_key(old.key_for(ds))
            && old.index_clash(ds)
    &&& fits(ds, old.types()) && !old.rows().contains_key(old.key_for(ds))
            && old.index_clash(ds) ==> r == Err::<(), DbError>(DbError::IndexIntegrity)
            || r == Err::<(), DbError>(DbError::Store)
    &&& r is Ok ==> {
            &&& fits(ds, old.types())
            &&& !old.rows().contains_key(old.key_for(ds))
            &&& new.rows() == old.rows().insert(old.key_for(ds), encode_data(ds))
            &&& forall|i: int| 0 <= i < old.indexes@.len() ==> #[trigger] new.index_map(i)
                == old.index_map(i).insert(old.tuple_for(i, ds), old.key_for(ds))
        }
    &&& r is Err && r != Err::<(), DbError>(DbError::Store) ==> new.rows() == old.rows()
            && forall|i: int| 0 <= i < old.indexes@.len()
                ==> #[trigger] new.index_map(i) == old.index_map(i)
    &&& r is Err ==> r->Err_0 == DbError::Schema || r->Err_0 == DbError::TooLong
            || r->Err_0 == DbError::KeyConflict || r->Err_0 == DbError::IndexIntegrity
            || r->Err_0 == DbError::Store
}

/// For every primary-key column, `e` binds that column to a literal.
pub open spec fn pins_pk(e: WhereExpr, pk: Seq<Seq<u8>>) -> bool {
    forall|j: int|
        #![trigger pk[j]]
        0 <= j < pk.len() ==> exists|b: (Seq<u8>, Datum)|
            #![trigger bindings_spec(e).contains(b)]
            bindings_spec(e).contains(b) && b.0 == pk[j]
}

/// After a row is inserted, selecting with equalities that pin its whole primary key
/// returns that row, unless the store fails.
pub proof fn lemma_insert_then_select(
    before: Table,
    after: Table,
    row: Seq<Datum>,
    e: WhereExpr,
    r: Result<Option<Vec<Val>>, DbError>,
)
    requires
        before.wf(),
        after.wf(),
        after.same_schema(&before),
        insert_post(before, after, row, Ok(())),
        equalities_only(e),
        pins_pk(e, before.pk()),
        holds(e, row, before.names()),
        after.selected(e, r),
        r != Err::<Option<Vec<Val>>, DbError>(DbError::Store),
    ensures
        r is Ok && r->Ok_0 is Some && data_of(r->Ok_0->Some_0@) == row,
{
    let names = before.names();
    let pk = before.pk();
    let key = before.key_for(row);
    assert(after.names() == names);
    assert(after.pk() == pk);
    assert(after.types() == before.types());
    assert(names.len() == before.types().len());
    assert(fits(row, before.types()));
    assert(all_encodable(row));
    lemma_decode_encode_data(row);
    assert(after.rows().contains_key(key));
    assert(after.stored(key) == row);
    assert forall|i: int| 0 <= i < row.len() implies (#[trigger] row[i]).typ() == row[i].typ() by {}
    lemma_equalities_decide(e, row, row, names);
    if r is Err {
        let x = r->Err_0;
        let k = choose|k: Seq<u8>| #[trigger] after.rows().contains_key(k)
            && fails_with(e, after.stored(k), names, x);
        assert(after.entry_ok(k));
        let other = after.stored(k);
        assert forall|i: int| 0 <= i < row.len()
            implies (#[trigger] row[i]).typ() == other[i].typ() by {}
        lemma_equalities_decide(e, row, other, names);
        lemma_eval_no_schema_error(e, other, names);
        assert(false);
    }
    if r == Ok::<Option<Vec<Val>>, DbError>(None) {
        assert(!holds(e, after.stored(key), names));
    }
    let x = data_of(r->Ok_0->Some_0@);
    let k = choose|k: Seq<u8>| #[trigger] after.rows().contains_key(k) && after.stored(k) == x;
    assert(after.entry_ok(k));
    lemma_bindings_hold(e, x, names);
    lemma_bindings_hold(e, row, names);
    assert(project(x, names, pk) =~= project(row, names, pk)) by {
        assert forall|j: int| 0 <= j < pk.len()
            implies #[trigger] project(x, names, pk)[j] == project(row, names, pk)[j] by {
            let b = choose|b: (Seq<u8>, Datum)| #[trigger] bindings_spec(e).contains(b)
                && b.0 == pk[j];
            assert(binding_in_row(b, x, names));
            assert(binding_in_row(b, row, names));
        }
    }
    assert(k == key);
}

/// Where the predicate reads only known columns and gives a truth value on every stored
/// row, `select` answers as a full scan in key order does, whichever path it takes (an
/// index whose columns are only partly pinned is never used), unless the store fails: the
/// first satisfying row, or `None` when no row satisfies the predicate.
pub proof fn lemma_select_answers_as_scan(t: Table, e: WhereExpr, r: Result<Option<Vec<Val>>,
    DbError>)
    requires
        t.wf(),
        t.selected(e, r),
        all_in(columns_read(e), t.names()),
        forall|k: Seq<u8>| #[trigger] t.rows().contains_key(k)
            ==> decides(e, t.stored(k), t.names()),
        r != Err::<Option<Vec<Val>>, DbError>(DbError::Store),
    ensures
        r is Ok,
        r->Ok_0 is None <==> forall|k: Seq<u8>| #[trigger] t.rows().contains_key(k)
            ==> !holds(e, t.stored(k), t.names()),
        r->Ok_0 is Some ==> t.first_match(e, data_of(r->Ok_0->Some_0@)),
{
    if r is Err {
        let k = choose|k: Seq<u8>| #[trigger] t.rows().contains_key(k)
            && fails_with(e, t.stored(k), t.names(), r->Err_0);
        assert(decides(e, t.stored(k), t.names()));
    }
}

/// A second insert of a row whose primary-key encoding is that of a stored row fails with
/// `KeyConflict`, unless the store fails, and the stored row stays as it was.
pub proof fn lemma_second_insert_conflicts(
    t0: Table,
    t1: Table,
    t2: Table,
    first: Seq<Datum>,
    second: Seq<Datum>,
    r: Result<(), DbError>,
)
    requires
        t0.wf(),
        t1.same_schema(&t0),
        insert_post(t0, t1, first, Ok(())),
        insert_post(t1, t2, second, r),
        fits(second, t1.types()),
        t1.key_for(second) == t0.key_for(first),
        r != Err::<(), DbError>(DbError::Store),
    ensures
        r == Err::<(), DbError>(DbError::KeyConflict),
        t2.rows() == t1.rows(),
        t2.stored(t0.key_for(first)) == first,
{
    let key = t0.key_for(first);
    assert(t1.types() == t0.types());
    assert(all_encodable(first));
    lemma_decode_encode_data(first);
    assert(t1.rows().contains_key(key));
}

/// The position of the first binding of column `name` whose value can be encoded.
fn find_binding(binds: &Vec<(Vec<u8>, Val)>, name: &[u8]) -> (r: Option<usize>)
    ensures
        match r {
            Some(m) => 0 <= m < binds@.len() && binds@[m as int].0@ == name@
                && binds@[m as int].1@.encodable()
                    && pinned_value(binds_view(binds@), name@) == Some(binds@[m as int].1@),
            None => pinned_value(binds_view(binds@), name@) is None,
        },
{
    let ghost bv = binds_view(binds@);
    let mut m: usize = 0;
    while m < binds.len()
        invariant
            0 <= m <= binds@.len(),
            bv == binds_view(binds@),
            pinned_from(bv, name@, 0) == pinned_from(bv, name@, m as int),
        decreases binds@.len() - m,
    {
        if bytes_eq(binds[m].0.as_slice(), name) && binds[m].1.encodable() {
            return Some(m);
        }
        m = m + 1;
    }
    None
}

/// Whether two lists of names are equal.
fn same_names(a: &Vec<Vec<u8>>, b: &Vec<Vec<u8>>) -> (r: bool)
    ensures
        r == (views_of(a@) == views_of(b@)),
{
    if a.len() != b.len() {
        assert(views_of(a@).len() != views_of(b@).len());
        return false;
    }
    let mut i: usize = 0;
    while i < a.len()
        invariant
            a@.len() == b@.len(),
            0 <= i <= a@.len(),
            forall|j: int| 0 <= j < i ==> (#[trigger] a@[j])@ == b@[j]@,
        decreases a@.len() - i,
    {
        if !bytes_eq(a[i].as_slice(), b[i].as_slice()) {
            assert(views_of(a@)[i as int] != views_of(b@)[i as int]);
            return false;
        }
        i = i + 1;
    }
    assert(views_of(a@) =~= views_of(b@));
    true
}

/// The position of the first name of `cols` that is not among `bound`.
fn first_missing(bound: &Vec<Vec<u8>>, cols: &Vec<Vec<u8>>) -> (r: Option<usize>)
    ensures
        r is None ==> all_bound(views_of(cols@), views_of(bound@)),
        r matches Some(c) ==> 0 <= c < cols@.len()
            && !views_of(bound@).contains(views_of(cols@)[c as int]),
{
    let mut c: usize = 0;
    while c < cols.len()
        invariant
            0 <= c <= cols@.len(),
            forall|a: int| 0 <= a < c ==> views_of(bound@).contains(#[trigger] views_of(cols@)[a]),
        decreases cols@.len() - c,
    {
        if !contains_name(bound, cols[c].as_slice()) {
            return Some(c);
        }
        c = c + 1;
    }
    None
}

/// The columns that a list of bindings pins.
fn bound_names(binds: &Vec<(Vec<u8>, Val)>) -> (r: Vec<Vec<u8>>)
    ensures
        forall|c: Seq<u8>| views_of(r@).contains(c)
            ==> exists|b: (Seq<u8>, Datum)| #[trigger] binds_view(binds@).contains(b) && b.0 == c,
{
    let mut out: Vec<Vec<u8>> = Vec::new();
    let mut i: usize = 0;
    while i < binds.len()
        invariant
            0 <= i <= binds@.len(),
            out@.len() == i,
            forall|a: int| 0 <= a < i ==> (#[trigger] out@[a])@ == binds@[a].0@,
        decreases binds@.len() - i,
    {
        out.push(slice_to_vec(binds[i].0.as_slice()));
        i = i + 1;
    }
    proof {
        assert forall|c: Seq<u8>| views_of(out@).contains(c)
            implies exists|b: (Seq<u8>, Datum)| #[trigger] binds_view(binds@).contains(b)
            && b.0 == c by {
            let a = choose|a: int| 0 <= a < views_of(out@).len() && views_of(out@)[a] == c;
            assert(binds_view(binds@)[a].0 == c);
            assert(binds_view(binds@).contains(binds_view(binds@)[a]));
        }
    }
    out
}

/// The name of the collection that records every table and index: `tables`.
pub open spec fn registry_name_spec() -> Seq<u8> {
    seq![116u8, 97u8, 98u8, 108u8, 101u8, 115u8]
}

/// The name of the collection that records every table and index.
fn registry_name() -> (r: Vec<u8>)
    ensures
        r@ == registry_name_spec(),
{
    let mut r: Vec<u8> = Vec::new();
    r.push(116u8);
    r.push(97u8);
    r.push(98u8);
    r.push(108u8);
    r.push(101u8);
    r.push(115u8);
    assert(r@ =~= registry_name_spec());
    r
}

/// Whether a table called `name` with these columns and primary key may be created, given
/// whether the name is already registered and whether the tree of that name is empty.
pub open spec fn table_verdict(
    name: Seq<u8>,
    columns: Seq<(Vec<u8>, Typ)>,
    pk: Seq<Seq<u8>>,
    registered: bool,
    empty: bool,
) -> Result<(), DbError> {
    if !valid_schema(columns, pk) {
        Err(DbError::Schema)
    } else if !short_names(columns, pk) {
        Err(DbError::TooLong)
    } else if name == registry_name_spec() || name.contains(0u8) || registered || !empty {
        Err(DbError::Schema)
    } else {
        Ok(())
    }
}

/// Decide whether a table may be created: the schema must be valid with names of at most
/// 255 bytes, the name must not be `tables`, hold no zero byte, nor be already registered,
/// and its tree must be empty. Index trees are named with a zero byte after the table's
/// name, so no table can take the tree of an index.
pub fn admit_table(
    name: &[u8],
    columns: &Vec<(Vec<u8>, Typ)>,
    primary_key: &Vec<Vec<u8>>,
    registered: bool,
    empty: bool,
) -> (r: Result<(), DbError>)
    ensures
        r == table_verdict(name@, columns@, views_of(primary_key@), registered, empty),
{
    if !schema_is_valid(columns, primary_key) {
        return Err(DbError::Schema);
    }
    if !names_are_short(columns, primary_key) {
        return Err(DbError::TooLong);
    }
    let reserved = registry_name();
    if bytes_eq(name, reserved.as_slice()) || has_zero(name) || registered || !empty {
        return Err(DbError::Schema);
    }
    Ok(())
}

/// Whether a byte string holds a zero byte.
fn has_zero(b: &[u8]) -> (r: bool)
    ensures
        r == b@.contains(0u8),
{
    let mut i: usize = 0;
    while i < b.len()
        invariant
            0 <= i <= b@.len(),
            forall|j: int| 0 <= j < i ==> b@[j] != 0u8,
        decreases b@.len() - i,
    {
        if b[i] == 0u8 {
            assert(b@[i as int] == 0u8);
            return true;
        }
        i = i + 1;
    }
    false
}

/// Whether every column name and primary-key name fits a one-byte length.
fn names_are_short(columns: &Vec<(Vec<u8>, Typ)>, primary_key: &Vec<Vec<u8>>) -> (r: bool)
    ensures
        r == short_names(columns@, views_of(primary_key@)),
{
    let mut i: usize = 0;
    while i < columns.len()
        invariant
            0 <= i <= columns@.len(),
            forall|a: int| 0 <= a < i ==> (#[trigger] columns@[a]).0@.len() <= 255,
        decreases columns@.len() - i,
    {
        if columns[i].0.len() > 255 {
            return false;
        }
        i = i + 1;
    }
    let mut j: usize = 0;
    while j < primary_key.len()
        invariant
            0 <= j <= primary_key@.len(),
            forall|a: int| 0 <= a < columns@.len() ==> (#[trigger] columns@[a]).0@.len() <= 255,
            forall|a: int| 0 <= a < j ==> (#[trigger] views_of(primary_key@)[a]).len() <= 255,
        decreases primary_key@.len() - j,
    {
        if primary_key[j].len() > 255 {
            assert(views_of(primary_key@)[j as int].len() > 255);
            return false;
        }
        j = j + 1;
    }
    true
}

/// The position of the first column called `name`.
pub fn column_position(cols: &Vec<(Vec<u8>, Typ)>, name: &[u8]) -> (r: Option<usize>)
    ensures
        match r {
            Some(i) => col_pos(names_of(cols@), name@) == Some(i as int),
            None => col_pos(names_of(cols@), name@) is None,
        },
{
    let ghost names = names_of(cols@);
    let mut i: usize = 0;
    while i < cols.len()
        invariant
            0 <= i <= cols@.len(),
            names == names_of(cols@),
            forall|j: int| 0 <= j < i ==> names[j] != name@,
        decreases cols@.len() - i,
    {
        if bytes_eq(cols[i].0.as_slice(), name) {
            proof {
                lemma_col_pos(names, name@, i as int);
            }
            return Some(i);
        }
        i = i + 1;
    }
    proof {
        lemma_col_pos(names, name@, i as int);
    }
    None
}

/// The encoding of the row's values in the columns `cols`.
fn encode_columns(col_list: &Vec<(Vec<u8>, Typ)>, row: &Vec<Val>,
    cols: &Vec<Vec<u8>>) -> (r: Vec<u8>)
    requires
        all_in(views_of(cols@), names_of(col_list@)),
        fits(data_of(row@), types_of(col_list@)),
    ensures
        r@ == key_of(data_of(row@), names_of(col_list@), views_of(cols@)),
{
    let ghost names = names_of(col_list@);
    let ghost ds = data_of(row@);
    let ghost cv = views_of(cols@);
    let mut out: Vec<u8> = Vec::new();
    let mut j: usize = 0;
    assert(project(ds, names, cv.subrange(0, 0)) =~= Seq::<Datum>::empty());
    while j < cols.len()
        invariant
            0 <= j <= cols@.len(),
            names == names_of(col_list@),
            ds == data_of(row@),
            cv == views_of(cols@),
            all_in(cv, names),
            fits(ds, types_of(col_list@)),
            out@ == encode_data(project(ds, names, cv.subrange(0, j as int))),
        decreases cols@.len() - j,
    {
        let ghost before = project(ds, names, cv.subrange(0, j as int));
        assert(col_pos(names, cv[j as int]) is Some);
        let p = column_position(col_list, cols[j].as_slice());
        let p = match p {
            Some(p) => p,
            None => {
                return out;
            },
        };
        proof {
            lemma_col_pos_range(names, cv[j as int]);
            assert(ds[p as int].encodable());
        }
        let res = row[p].serialize(&mut out);
        proof {
            lemma_encode_data_push(before, ds[p as int]);
            assert(project(ds, names, cv.subrange(0, j + 1)) =~= before.push(ds[p as int]));
        }
        j = j + 1;
    }
    assert(cv.subrange(0, j as int) =~= cv);
    out
}

/// Whether the row has one value per column, of the column's type.
fn row_typed(col_list: &Vec<(Vec<u8>, Typ)>, row: &Vec<Val>) -> (r: bool)
    ensures
        r == typed(data_of(row@), types_of(col_list@)),
{
    if row.len() != col_list.len() {
        return false;
    }
    let mut i: usize = 0;
    while i < row.len()
        invariant
            row@.len() == col_list@.len(),
            0 <= i <= row@.len(),
            forall|j: int| 0 <= j < i
                ==> (#[trigger] data_of(row@)[j]).typ() == types_of(col_list@)[j],
        decreases row@.len() - i,
    {
        if row[i].get_type() != col_list[i].1 {
            assert(data_of(row@)[i as int].typ() != types_of(col_list@)[i as int]);
            return false;
        }
        i = i + 1;
    }
    true
}

/// Encoding one more value appends its encoding.
pub proof fn lemma_encode_data_push(ds: Seq<Datum>, d: Datum)
    ensures
        encode_data(ds.push(d)) == encode_data(ds) + encode_datum(d),
    decreases ds.len(),
{
    if ds.len() == 0 {
        assert(ds.push(d).drop_first() =~= Seq::<Datum>::empty());
        assert(encode_data(Seq::<Datum>::empty()) == Seq::<u8>::empty());
        assert(encode_data(ds.push(d)) =~= encode_datum(d) + Seq::<u8>::empty());
        assert(encode_data(ds) == Seq::<u8>::empty());
    } else {
        assert(ds.push(d).drop_first() =~= ds.drop_first().push(d));
        lemma_encode_data_push(ds.drop_first(), d);
        assert(encode_data(ds.push(d)) =~= encode_data(ds) + encode_datum(d));
    }
}

/// The encoding of a whole row.
pub fn serialize_row(row: &Vec<Val>) -> (r: Result<Vec<u8>, DbError>)
    ensures
        all_encodable(data_of(row@)) ==> r is Ok && r->Ok_0@ == encode_data(data_of(row@)),
        !all_encodable(data_of(row@)) ==> r == Err::<Vec<u8>, DbError>(DbError::TooLong),
{
    let mut out: Vec<u8> = Vec::new();
    let mut i: usize = 0;
    while i < row.len()
        invariant
            0 <= i <= row@.len(),
            out@ == encode_data(data_of(row@).subrange(0, i as int)),
            all_encodable(data_of(row@).subrange(0, i as int)),
        decreases row@.len() - i,
    {
        let ghost before = data_of(row@).subrange(0, i as int);
        match row[i].serialize(&mut out) {
            Ok(()) => {},
            Err(e) => {
                assert(!data_of(row@)[i as int].encodable());
                return Err(e);
            },
        }
        proof {
            lemma_encode_data_push(before, row@[i as int]@);
            assert(data_of(row@).subrange(0, i + 1) =~= before.push(row@[i as int]@));
        }
        i = i + 1;
    }
    assert(data_of(row@).subrange(0, i as int) =~= data_of(row@));
    Ok(out)
}

/// The values encoded back to back in `bytes`.
pub fn deserialize_row(bytes: &[u8]) -> (r: Result<Vec<Val>, DbError>)
    ensures
        match decode_data(bytes@) {
            Some(ds) => r is Ok && data_of(r->Ok_0@) == ds,
            None => r == Err::<Vec<Val>, DbError>(DbError::Decoding),
        },
{
    let mut reader: &[u8] = bytes;
    let mut out: Vec<Val> = Vec::new();
    while reader.len() > 0
        invariant
            decode_data(bytes@) == match decode_data(reader@) {
                Some(rest) => Some(data_of(out@) + rest),
                None => None::<Seq<Datum>>,
            },
        decreases reader@.len(),
    {
        let ghost before = reader@;
        match Val::deserialize(&mut reader) {
            Ok(v) => {
                proof {
                    assert(data_of(out@.push(v)) =~= data_of(out@) + seq![v@]);
                    match decode_data(reader@) {
                        Some(rest) => {
                            assert(data_of(out@) + (seq![v@] + rest)
                                =~= data_of(out@) + seq![v@] + rest);
                        },
                        None => {},
                    }
                }
                out.push(v);
            },
            Err(e) => {
                return Err(e);
            },
        }
    }
    assert(data_of(out@) + Seq::<Datum>::empty() =~= data_of(out@));
    Ok(out)
}

} // verus!
