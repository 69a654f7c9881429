use vstd::prelude::*;

use crate::error::DbError;
use crate::expr::{WhereExpr, col_pos, decides, eval_spec, holds};
use crate::store::{ascending, entries_view, lists_map, tree_entries};
use crate::table::{Table, column_position, deserialize_row};
use crate::val::{Datum, Val, data_of, decode_data};

verus! {

/// One step of a scanner: a row, or the failure met while producing it.
pub type Item = Result<Seq<Datum>, DbError>;

/// The plain form of what `next` returned for one item (`Ok(None)`, the end, stands for no
/// item; contracts use this only where an item came).
pub open spec fn item_view(r: Result<Option<Vec<Val>>, DbError>) -> Item {
    match r {
        Ok(Some(row)) => Ok(data_of(row@)),
        Ok(None) => Err(DbError::Decoding),
        Err(e) => Err(e),
    }
}

/// The items that a filter stage passes on: rows on which the predicate is `true`, and
/// every failure; rows on which it is `false` are dropped.
pub open spec fn filter_items(items: Seq<Item>, e: WhereExpr, names: Seq<Seq<u8>>) -> Seq<Item>
    decreases items.len(),
{
    if items.len() == 0 {
        Seq::empty()
    } else {
        let rest = filter_items(items.drop_first(), e, names);
        match items[0] {
            Err(x) => seq![Err(x)] + rest,
            Ok(row) => match eval_spec(e, row, names) {
                Ok(Datum::Bool(true)) => seq![Ok(row)] + rest,
                Ok(Datum::Bool(false)) => rest,
                Ok(_) => seq![Err(DbError::Type)] + rest,
                Err(x) => seq![Err(x)] + rest,
            },
        }
    }
}

/// One item after a map stage: the row with column `col` replaced by the value of `e`.
pub open spec fn map_item(item: Item, col: Seq<u8>, e: WhereExpr, names: Seq<Seq<u8>>) -> Item {
    match item {
        Err(x) => Err(x),
        Ok(row) => match col_pos(names, col) {
            Some(p) => if p < row.len() {
                match eval_spec(e, row, names) {
                    Ok(v) => Ok(row.update(p, v)),
                    Err(x) => Err(x),
                }
            } else {
                Err(DbError::Schema)
            },
            None => Err(DbError::Schema),
        },
    }
}

/// The items that a map stage passes on.
pub open spec fn map_items(items: Seq<Item>, col: Seq<u8>, e: WhereExpr,
    names: Seq<Seq<u8>>) -> Seq<Item> {
    items.map_values(|it: Item| map_item(it, col, e, names))
}

/// The row that a stored value decodes to.
pub open spec fn decoded(bytes: Seq<u8>) -> Item {
    match decode_data(bytes) {
        Some(ds) => Ok(ds),
        None => Err(DbError::Decoding),
    }
}

/// Rows that all came through without failure.
pub open spec fn ok_items(rows: Seq<Seq<Datum>>) -> Seq<Item> {
    rows.map_values(|r: Seq<Datum>| Ok::<Seq<Datum>, DbError>(r))
}

/// The test that a row satisfies `e`.
pub open spec fn satisfied_by(e: WhereExpr, names: Seq<Seq<u8>>) -> spec_fn(Seq<Datum>) -> bool {
    |r: Seq<Datum>| holds(e, r, names)
}

/// Where the predicate gives a truth value on every upstream row, a filter stage passes on
/// exactly the upstream rows on which it is true, in their upstream order, however many
/// rows before them it drops; so it passes on as many rows as satisfy the predicate.
pub proof fn lemma_filter_keeps_matching_rows(rows: Seq<Seq<Datum>>, e: WhereExpr,
    names: Seq<Seq<u8>>)
    requires
        forall|i: int| 0 <= i < rows.len() ==> decides(e, #[trigger] rows[i], names),
    ensures
        filter_items(ok_items(rows), e, names) == ok_items(rows.filter(satisfied_by(e, names))),
        filter_items(ok_items(rows), e, names).len() == rows.filter(satisfied_by(e, names)).len(),
    decreases rows.len(),
{
    let p = satisfied_by(e, names);
    if rows.len() == 0 {
        assert(ok_items(rows) =~= Seq::<Item>::empty());
        reveal(Seq::filter);
        assert(rows.filter(p) =~= Seq::<Seq<Datum>>::empty());
        assert(ok_items(rows.filter(p)) =~= Seq::<Item>::empty());
    } else {
        let x = rows[0];
        let rest = rows.drop_first();
        assert forall|i: int| 0 <= i < rest.len() implies decides(e, #[trigger] rest[i], names) by {
            assert(rest[i] == rows[i + 1]);
        }
        lemma_filter_keeps_matching_rows(rest, e, names);
        assert(rows =~= seq![x] + rest);
        Seq::filter_distributes_over_add(seq![x], rest, p);
        reveal(Seq::filter);
        assert(seq![x].drop_last() =~= Seq::<Seq<Datum>>::empty());
        assert(Seq::<Seq<Datum>>::empty().filter(p) =~= Seq::<Seq<Datum>>::empty());
        assert(ok_items(rows)[0] == Ok::<Seq<Datum>, DbError>(x));
        assert(ok_items(rows).drop_first() =~= ok_items(rest));
        assert(decides(e, rows[0], names));
        if p(x) {
            assert(seq![x].filter(p) =~= seq![x]);
            assert(ok_items(seq![x] + rest.filter(p))
                =~= seq![Ok::<Seq<Datum>, DbError>(x)] + ok_items(rest.filter(p)));
        } else {
            assert(seq![x].filter(p) =~= Seq::<Seq<Datum>>::empty());
            assert(seq![x].filter(p) + rest.filter(p) =~= rest.filter(p));
        }
    }
}

/// How many upstream items a filter stage reads for one step: up to and including the first
/// item that it passes on, or all of them when it passes none on.
pub open spec fn filter_reads(items: Seq<Item>, e: WhereExpr, names: Seq<Seq<u8>>) -> int
    decreases items.len(),
{
    if items.len() == 0 {
        0
    } else {
        match items[0] {
            Ok(row) => if eval_spec(e, row, names) == Ok::<Datum, DbError>(Datum::Bool(false)) {
                1 + filter_reads(items.drop_first(), e, names)
            } else {
                1
            },
            Err(_) => 1,
        }
    }
}

/// A map stage keeps every column of a row but the target one, and puts there the value of
/// the expression on the original row.
pub proof fn lemma_map_replaces_target(row: Seq<Datum>, col: Seq<u8>, e: WhereExpr,
    names: Seq<Seq<u8>>, p: int)
    requires
        col_pos(names, col) == Some(p),
        0 <= p < row.len(),
        eval_spec(e, row, names) is Ok,
    ensures
        map_item(Ok(row), col, e, names) is Ok,
        map_item(Ok(row), col, e, names)->Ok_0.len() == row.len(),
        forall|i: int| 0 <= i < row.len() && i != p
            ==> #[trigger] map_item(Ok(row), col, e, names)->Ok_0[i] == row[i],
        map_item(Ok(row), col, e, names)->Ok_0[p] == eval_spec(e, row, names)->Ok_0,
{
}

/// A single-pass producer of rows.
pub trait DbScanner: Sized {
    /// The invariant of the scanner's state.
    spec fn inv(&self) -> bool;

    /// The items that the scanner has yet to produce, in order.
    spec fn upcoming(&self) -> Seq<Item>;

    /// The column names of the rows it produces.
    spec fn names(&self) -> Seq<Seq<u8>>;

    /// The next row, `Ok(None)` once every item has been produced, or the failure met.
    fn next(&mut self) -> (r: Result<Option<Vec<Val>>, DbError>)
        requires
            old(self).inv(),
        ensures
            final(self).inv(),
            final(self).names() == old(self).names(),
            old(self).upcoming().len() == 0 ==> r == Ok::<Option<Vec<Val>>, DbError>(None)
                && final(self).upcoming() == old(self).upcoming(),
            old(self).upcoming().len() > 0 ==> r != Ok::<Option<Vec<Val>>, DbError>(None)
                && item_view(r) == old(self).upcoming()[0]
                && final(self).upcoming() == old(self).upcoming().drop_first(),
    ;

    /// The table whose rows this scanner produces.
    fn table(&self) -> (r: &Table)
        ensures
            r.names() == self.names(),
    ;

    /// Keep only the rows that satisfy `expr`.
    fn filter_by(self, expr: WhereExpr) -> (r: QueryFilter<Self>)
        ensures
            r.0 == self,
            r.1 == expr,
    {
        QueryFilter(self, expr)
    }

    /// Replace column `to_modify` of each row by the value of `expr` on the row.
    fn map_col(self, to_modify: Vec<u8>, expr: WhereExpr) -> (r: QueryMap<Self>)
        ensures
            r.0 == self,
            r.1 == to_modify,
            r.2 == expr,
    {
        QueryMap(self, to_modify, expr)
    }
}

/// A full scan of a table, in key order. It reads the rows stored when the scan began: the
/// scan borrows the table, so no insert can come between its steps.
pub struct Scan<'a> {
    pub table: &'a Table,
    pub entries: Vec<(Vec<u8>, Vec<u8>)>,
    pub pos: usize,
}

impl<'a> Scan<'a> {
    /// Start a scan of every row of `table`.
    pub fn new(table: &'a Table) -> (r: Result<Scan<'a>, DbError>)
        ensures
            r is Ok ==> r->Ok_0.inv() && r->Ok_0.table == table && r->Ok_0.lists(table),
            r is Err ==> r->Err_0 == DbError::Store,
    {
        match tree_entries(&table.tree) {
            Ok(entries) => {
                let s = Scan { table, entries, pos: 0 };
                proof {
                    let ev = entries_view(s.entries@);
                    assert(lists_map(ev, table.rows()));
                    assert forall|i: int| 0 <= i < s.entries@.len()
                        implies #[trigger] s.upcoming()[i]
                        == decoded(table.rows()[s.entries@[i].0@]) by {
                        assert(ev[i] == (s.entries@[i].0@, s.entries@[i].1@));
                        assert(table.rows().contains_key(ev[i].0)
                            && table.rows()[ev[i].0] == ev[i].1);
                    }
                }
                Ok(s)
            },
            Err(_) => Err(DbError::Store),
        }
    }

    /// The scan has not begun, and its items are the stored rows of `table`, each once.
    pub open spec fn lists(&self, table: &Table) -> bool {
        &&& self.pos == 0
        &&& lists_map(entries_view(self.entries@), table.rows())
        &&& ascending(entries_view(self.entries@))
        &&& forall|i: int| 0 <= i < self.entries@.len()
            ==> #[trigger] self.upcoming()[i] == decoded(table.rows()[self.entries@[i].0@])
    }
}

impl<'a> DbScanner for Scan<'a> {
    open spec fn inv(&self) -> bool {
        self.pos <= self.entries@.len()
    }

    open spec fn upcoming(&self) -> Seq<Item> {
        Seq::new((self.entries@.len() - self.pos) as nat,
            |i: int| decoded(self.entries@[self.pos + i].1@))
    }

    open spec fn names(&self) -> Seq<Seq<u8>> {
        self.table.names()
    }

    fn next(&mut self) -> (r: Result<Option<Vec<Val>>, DbError>) {
        if self.pos >= self.entries.len() {
            return Ok(None);
        }
        let i = self.pos;
        self.pos = self.pos + 1;
        let ghost prev = old(self).upcoming();
        assert(self.upcoming() =~= prev.drop_first());
        match deserialize_row(self.entries[i].1.as_slice()) {
            Ok(row) => Ok(Some(row)),
            Err(e) => Err(e),
        }
    }

    fn table(&self) -> (r: &Table) {
        self.table
    }
}

/// A stage that passes on the upstream rows that satisfy a predicate.
pub struct QueryFilter<S: DbScanner>(pub S, pub WhereExpr);

impl<S: DbScanner> DbScanner for QueryFilter<S> {
    open spec fn inv(&self) -> bool {
        self.0.inv()
    }

    open spec fn upcoming(&self) -> Seq<Item> {
        filter_items(self.0.upcoming(), self.1, self.0.names())
    }

    open spec fn names(&self) -> Seq<Seq<u8>> {
        self.0.names()
    }

    fn next(&mut self) -> (r: Result<Option<Vec<Val>>, DbError>)
        ensures
            final(self).0.upcoming() == old(self).0.upcoming().skip(
                filter_reads(old(self).0.upcoming(), old(self).1, old(self).0.names()),
            ),
    {
        loop
            invariant
                self.0.inv(),
                self.1 == old(self).1,
                self.0.names() == old(self).0.names(),
                filter_items(self.0.upcoming(), self.1, self.0.names()) == old(self).upcoming(),
                0 <= old(self).0.upcoming().len() - self.0.upcoming().len(),
                self.0.upcoming() == old(self).0.upcoming().skip(
                    old(self).0.upcoming().len() - self.0.upcoming().len(),
                ),
                filter_reads(old(self).0.upcoming(), self.1, self.0.names())
                    == (old(self).0.upcoming().len() - self.0.upcoming().len()) + filter_reads(
                    self.0.upcoming(),
                    self.1,
                    self.0.names(),
                ),
            decreases self.0.upcoming().len(),
        {
            let ghost items = self.0.upcoming();
            let ghost orig = old(self).0.upcoming();
            proof {
                if items.len() > 0 {
                    assert(orig.skip(orig.len() - items.len() + 1) =~= items.drop_first());
                }
            }
            let next = self.0.next();
            match next {
                Ok(None) => {
                    return Ok(None);
                },
                Err(e) => {
                    return Err(e);
                },
                Ok(Some(row)) => {
                    let t = self.0.table();
                    match self.1.eval(&row, t) {
                        Ok(Val::Boolean(true)) => {
                            return Ok(Some(row));
                        },
                        Ok(Val::Boolean(false)) => {},
                        Ok(_) => {
                            return Err(DbError::Type);
                        },
                        Err(e) => {
                            return Err(e);
                        },
                    }
                },
            }
        }
    }

    fn table(&self) -> (r: &Table) {
        self.0.table()
    }
}

/// A filter stage over an upstream whose remaining items are the rows `rows`, on each of
/// which the predicate gives a truth value, will pass on exactly the rows that satisfy the
/// predicate, in upstream order, and as many of them as satisfy it.
pub proof fn lemma_filter_stage_output<S: DbScanner>(f: QueryFilter<S>, rows: Seq<Seq<Datum>>)
    requires
        f.0.upcoming() == ok_items(rows),
        forall|i: int| 0 <= i < rows.len() ==> decides(f.1, #[trigger] rows[i], f.0.names()),
    ensures
        f.upcoming() == ok_items(rows.filter(satisfied_by(f.1, f.0.names()))),
        f.upcoming().len() == rows.filter(satisfied_by(f.1, f.0.names())).len(),
{
    lemma_filter_keeps_matching_rows(rows, f.1, f.0.names());
}

/// A stage that replaces one column of each upstream row by the value of an expression.
pub struct QueryMap<S: DbScanner>(pub S, pub Vec<u8>, pub WhereExpr);

impl<S: DbScanner> DbScanner for QueryMap<S> {
    open spec fn inv(&self) -> bool {
        self.0.inv()
    }

    open spec fn upcoming(&self) -> Seq<Item> {
        map_items(self.0.upcoming(), self.1@, self.2, self.0.names())
    }

    open spec fn names(&self) -> Seq<Seq<u8>> {
        self.0.names()
    }

    fn next(&mut self) -> (r: Result<Option<Vec<Val>>, DbError>)
        ensures
            old(self).0.upcoming().len() > 0 ==> final(self).0.upcoming() == old(
                self,
            ).0.upcoming().drop_first(),
            old(self).0.upcoming().len() == 0 ==> final(self).0.upcoming() == old(
                self,
            ).0.upcoming(),
    {
        let ghost items = self.0.upcoming();
        let next = self.0.next();
        proof {
            if items.len() > 0 {
                assert(map_items(self.0.upcoming(), self.1@, self.2, self.0.names())
                    =~= map_items(items, self.1@, self.2, self.0.names()).drop_first());
            }
        }
        let mut row = match next {
            Ok(None) => {
                return Ok(None);
            },
            Err(e) => {
                return Err(e);
            },
            Ok(Some(row)) => row,
        };
        let t = self.0.table();
        let p = match column_position(&t.col_list, self.1.as_slice()) {
            Some(p) => p,
            None => {
                return Err(DbError::Schema);
            },
        };
        if p >= row.len() {
            return Err(DbError::Schema);
        }
        match self.2.eval(&row, t) {
            Ok(v) => {
                proof {
                    assert(data_of(row@.update(p as int, v))
                        =~= data_of(row@).update(p as int, v@));
                }
                row.set(p, v);
                Ok(Some(row))
            },
            Err(e) => Err(e),
        }
    }

    fn table(&self) -> (r: &Table) {
        self.0.table()
    }
}

} // verus!
