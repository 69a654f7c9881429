use vstd::prelude::*;
use vstd::slice::slice_to_vec;

use crate::error::DbError;
use crate::table::{Table, column_position, views_of, all_in};
use crate::val::{bytes_eq, Datum, Val, res_view, datum_add, datum_sub, datum_mul, datum_div,
    datum_lt, data_of};

verus! {

/// An expression over the columns of a row: a WHERE predicate or a computed column.
#[derive(Debug)]
pub enum WhereExpr {
    Column(Vec<u8>),
    Literal(Val),
    // Arithmetic
    Sum(Box<WhereExpr>, Box<WhereExpr>),
    Sub(Box<WhereExpr>, Box<WhereExpr>),
    Mul(Box<WhereExpr>, Box<WhereExpr>),
    Div(Box<WhereExpr>, Box<WhereExpr>),
    // Logical
    And(Box<WhereExpr>, Box<WhereExpr>),
    Or(Box<WhereExpr>, Box<WhereExpr>),
    Not(Box<WhereExpr>),
    // Comparison
    Equal(Box<WhereExpr>, Box<WhereExpr>),
    Gt(Box<WhereExpr>, Box<WhereExpr>),
    Gte(Box<WhereExpr>, Box<WhereExpr>),
    Lt(Box<WhereExpr>, Box<WhereExpr>),
    Lte(Box<WhereExpr>, Box<WhereExpr>),
}

/// The position of the first column called `n`.
pub open spec fn col_pos(names: Seq<Seq<u8>>, n: Seq<u8>) -> Option<int>
    decreases names.len(),
{
    if names.len() == 0 {
        None
    } else if names[0] == n {
        Some(0)
    } else {
        match col_pos(names.drop_first(), n) {
            Some(i) => Some(i + 1),
            None => None,
        }
    }
}

/// A scan that has passed `i` columns without meeting `n` finds it at `i` if it is there,
/// and finds nothing once all columns are passed.
pub proof fn lemma_col_pos(names: Seq<Seq<u8>>, n: Seq<u8>, i: int)
    requires
        0 <= i <= names.len(),
        forall|j: int| 0 <= j < i ==> names[j] != n,
    ensures
        i < names.len() && names[i] == n ==> col_pos(names, n) == Some(i),
        i == names.len() ==> col_pos(names, n) is None,
    decreases i,
{
    if i > 0 {
        assert forall|j: int| 0 <= j < i - 1 implies names.drop_first()[j] != n by {
            assert(names[j + 1] != n);
        }
        lemma_col_pos(names.drop_first(), n, i - 1);
    }
}

/// Both operands evaluated, left first; the first error wins.
pub open spec fn both(
    a: Result<Datum, DbError>,
    b: Result<Datum, DbError>,
) -> Result<(Datum, Datum), DbError> {
    match a {
        Err(e) => Err(e),
        Ok(x) => match b {
            Err(e) => Err(e),
            Ok(y) => Ok((x, y)),
        },
    }
}

/// A boolean result, or a type error for any other value.
pub open spec fn as_bool(d: Datum) -> Result<bool, DbError> {
    match d {
        Datum::Bool(b) => Ok(b),
        _ => Err(DbError::Type),
    }
}

pub open spec fn bool_pair(p: Result<(Datum, Datum), DbError>) -> Result<(bool, bool), DbError> {
    match p {
        Err(e) => Err(e),
        Ok((x, y)) => match (x, y) {
            (Datum::Bool(a), Datum::Bool(b)) => Ok((a, b)),
            _ => Err(DbError::Type),
        },
    }
}

/// A comparison of two values of one type, or a type error.
pub open spec fn compare(p: Result<(Datum, Datum), DbError>, result: spec_fn(Datum,
    Datum) -> bool) -> Result<Datum, DbError> {
    match p {
        Err(e) => Err(e),
        Ok((x, y)) => if x.typ() == y.typ() {
            Ok(Datum::Bool(result(x, y)))
        } else {
            Err(DbError::Type)
        },
    }
}

pub open spec fn arith(p: Result<(Datum, Datum), DbError>, op: spec_fn(Datum,
    Datum) -> Result<Datum, DbError>) -> Result<Datum, DbError> {
    match p {
        Err(e) => Err(e),
        Ok((x, y)) => op(x, y),
    }
}

/// The value of `e` on a row whose columns are called `names`.
pub open spec fn eval_spec(e: WhereExpr, row: Seq<Datum>, names: Seq<Seq<u8>>) -> Result<Datum,
    DbError>
    decreases e,
{
    match e {
        WhereExpr::Literal(v) => Ok(v@),
        WhereExpr::Column(n) => match col_pos(names, n@) {
            Some(i) => if i < row.len() {
                Ok(row[i])
            } else {
                Err(DbError::Schema)
            },
            None => Err(DbError::Schema),
        },
        WhereExpr::Sum(a, b) => arith(both(eval_spec(*a, row, names), eval_spec(*b, row, names)),
            |x: Datum, y: Datum| datum_add(x, y)),
        WhereExpr::Sub(a, b) => arith(both(eval_spec(*a, row, names), eval_spec(*b, row, names)),
            |x: Datum, y: Datum| datum_sub(x, y)),
        WhereExpr::Mul(a, b) => arith(both(eval_spec(*a, row, names), eval_spec(*b, row, names)),
            |x: Datum, y: Datum| datum_mul(x, y)),
        WhereExpr::Div(a, b) => arith(both(eval_spec(*a, row, names), eval_spec(*b, row, names)),
            |x: Datum, y: Datum| datum_div(x, y)),
        WhereExpr::And(a, b) => match bool_pair(
            both(eval_spec(*a, row, names), eval_spec(*b, row, names)),
        ) {
            Ok((x, y)) => Ok(Datum::Bool(x && y)),
            Err(e) => Err(e),
        },
        WhereExpr::Or(a, b) => match bool_pair(
            both(eval_spec(*a, row, names), eval_spec(*b, row, names)),
        ) {
            Ok((x, y)) => Ok(Datum::Bool(x || y)),
            Err(e) => Err(e),
        },
        WhereExpr::Not(a) => match eval_spec(*a, row, names) {
            Ok(x) => match as_bool(x) {
                Ok(b) => Ok(Datum::Bool(!b)),
                Err(e) => Err(e),
            },
            Err(e) => Err(e),
        },
        WhereExpr::Equal(a, b) => compare(
            both(eval_spec(*a, row, names), eval_spec(*b, row, names)),
            |x: Datum, y: Datum| x == y,
        ),
        WhereExpr::Gt(a, b) => compare(both(eval_spec(*a, row, names), eval_spec(*b, row, names)),
            |x: Datum, y: Datum| datum_lt(y, x)),
        WhereExpr::Gte(a, b) => compare(both(eval_spec(*a, row, names), eval_spec(*b, row, names)),
            |x: Datum, y: Datum| !datum_lt(x, y)),
        WhereExpr::Lt(a, b) => compare(both(eval_spec(*a, row, names), eval_spec(*b, row, names)),
            |x: Datum, y: Datum| datum_lt(x, y)),
        WhereExpr::Lte(a, b) => compare(both(eval_spec(*a, row, names), eval_spec(*b, row, names)),
            |x: Datum, y: Datum| !datum_lt(y, x)),
    }
}

/// Whether `e` holds of the row: it evaluates to `true`.
pub open spec fn holds(e: WhereExpr, row: Seq<Datum>, names: Seq<Seq<u8>>) -> bool {
    eval_spec(e, row, names) == Ok::<Datum, DbError>(Datum::Bool(true))
}

/// Whether `e` evaluates to a boolean on the row.
pub open spec fn decides(e: WhereExpr, row: Seq<Datum>, names: Seq<Seq<u8>>) -> bool {
    eval_spec(e, row, names) matches Ok(Datum::Bool(_))
}

/// The column-to-literal equalities that a predicate states at its top-level conjunction.
pub open spec fn bindings_spec(e: WhereExpr) -> Seq<(Seq<u8>, Datum)>
    decreases e,
{
    match e {
        WhereExpr::Equal(a, b) => match (*a, *b) {
            (WhereExpr::Column(c), WhereExpr::Literal(l)) => seq![(c@, l@)],
            _ => Seq::empty(),
        },
        WhereExpr::And(a, b) => bindings_spec(*a) + bindings_spec(*b),
        _ => Seq::empty(),
    }
}

/// The names of all columns that an expression reads.
pub open spec fn columns_read(e: WhereExpr) -> Seq<Seq<u8>>
    decreases e,
{
    match e {
        WhereExpr::Literal(_) => Seq::empty(),
        WhereExpr::Column(n) => seq![n@],
        WhereExpr::Not(a) => columns_read(*a),
        WhereExpr::Sum(a, b) | WhereExpr::Sub(a, b) | WhereExpr::Mul(a, b) | WhereExpr::Div(a, b)
        | WhereExpr::And(a, b) | WhereExpr::Or(a, b) | WhereExpr::Equal(a, b) | WhereExpr::Gt(a, b)
        | WhereExpr::Gte(a, b) | WhereExpr::Lt(a, b) | WhereExpr::Lte(a, b) => columns_read(*a)
            + columns_read(*b),
    }
}

/// Whether the row holds the bound value in the bound column.
pub open spec fn binding_in_row(b: (Seq<u8>, Datum), row: Seq<Datum>, names: Seq<Seq<u8>>) -> bool {
    match col_pos(names, b.0) {
        Some(i) => 0 <= i < row.len() && row[i] == b.1,
        None => false,
    }
}

/// A binding of a predicate that holds of a row is the row's value in that column.
pub proof fn lemma_binding_holds(e: WhereExpr, row: Seq<Datum>, names: Seq<Seq<u8>>, k: int)
    requires
        holds(e, row, names),
        0 <= k < bindings_spec(e).len(),
    ensures
        binding_in_row(bindings_spec(e)[k], row, names),
    decreases e,
{
    match e {
        WhereExpr::And(a, b) => {
            let la = bindings_spec(*a).len();
            assert(holds(*a, row, names) && holds(*b, row, names));
            assert(bindings_spec(e) == bindings_spec(*a) + bindings_spec(*b));
            if k < la {
                assert(bindings_spec(e)[k] == bindings_spec(*a)[k]);
                lemma_binding_holds(*a, row, names, k);
            } else {
                assert(bindings_spec(e)[k] == bindings_spec(*b)[k - la]);
                lemma_binding_holds(*b, row, names, k - la);
            }
        },
        WhereExpr::Equal(a, b) => {
            match (*a, *b) {
                (WhereExpr::Column(c), WhereExpr::Literal(l)) => {
                    lemma_col_pos_range(names, c@);
                    let i = col_pos(names, c@)->Some_0;
                    assert(eval_spec(*a, row, names) == Ok::<Datum, DbError>(row[i]));
                    assert(eval_spec(*b, row, names) == Ok::<Datum, DbError>(l@));
                },
                _ => {},
            }
        },
        _ => {},
    }
}

/// The position found is the first that holds the name; none is found only when no
/// column has it.
pub proof fn lemma_col_pos_range(names: Seq<Seq<u8>>, n: Seq<u8>)
    ensures
        col_pos(names, n) matches Some(i)
            ==> 0 <= i < names.len() && names[i] == n && forall|j: int| 0 <= j < i
            ==> names[j] != n,
        col_pos(names, n) is None ==> forall|j: int| 0 <= j < names.len() ==> names[j] != n,
    decreases names.len(),
{
    if names.len() > 0 {
        lemma_col_pos_range(names.drop_first(), n);
        if names[0] != n {
            assert forall|j: int| 0 <= j < names.len() && col_pos(names, n) is None
                implies names[j] != n by {
                if j > 0 {
                    assert(names.drop_first()[j - 1] == names[j]);
                }
            }
            if col_pos(names, n) is Some {
                let i = col_pos(names, n)->Some_0;
                assert forall|j: int| 0 <= j < i implies names[j] != n by {
                    if j > 0 {
                        assert(names.drop_first()[j - 1] == names[j]);
                    }
                }
            }
        }
    }
}

/// The bindings of `bindings_spec` whose column is one of `keys`.
pub open spec fn pk_bindings(e: WhereExpr, keys: Seq<Seq<u8>>) -> Seq<(Seq<u8>, Datum)>
    decreases e,
{
    match e {
        WhereExpr::Equal(a, b) => match (*a, *b) {
            (WhereExpr::Column(c), WhereExpr::Literal(l)) => if keys.contains(c@) {
                seq![(c@, l@)]
            } else {
                Seq::empty()
            },
            _ => Seq::empty(),
        },
        WhereExpr::And(a, b) => pk_bindings(*a, keys) + pk_bindings(*b, keys),
        _ => Seq::empty(),
    }
}

/// The plain form of a list of bindings.
pub open spec fn binds_view(bs: Seq<(Vec<u8>, Val)>) -> Seq<(Seq<u8>, Datum)> {
    bs.map_values(|b: (Vec<u8>, Val)| (b.0@, b.1@))
}

/// Every binding restricted to `keys` is one of the predicate's bindings.
pub proof fn lemma_pk_bindings_sub(e: WhereExpr, keys: Seq<Seq<u8>>, k: int)
    requires
        0 <= k < pk_bindings(e, keys).len(),
    ensures
        bindings_spec(e).contains(pk_bindings(e, keys)[k]),
        keys.contains(pk_bindings(e, keys)[k].0),
    decreases e,
{
    match e {
        WhereExpr::And(a, b) => {
            let la = pk_bindings(*a, keys).len();
            assert(pk_bindings(e, keys) == pk_bindings(*a, keys) + pk_bindings(*b, keys));
            assert(bindings_spec(e) == bindings_spec(*a) + bindings_spec(*b));
            if k < la {
                assert(pk_bindings(e, keys)[k] == pk_bindings(*a, keys)[k]);
                lemma_pk_bindings_sub(*a, keys, k);
                let j = choose|j: int| 0 <= j < bindings_spec(*a).len()
                    && bindings_spec(*a)[j] == pk_bindings(*a, keys)[k];
                assert(bindings_spec(e)[j] == bindings_spec(*a)[j]);
            } else {
                assert(pk_bindings(e, keys)[k] == pk_bindings(*b, keys)[k - la]);
                lemma_pk_bindings_sub(*b, keys, k - la);
                let j = choose|j: int| 0 <= j < bindings_spec(*b).len()
                    && bindings_spec(*b)[j] == pk_bindings(*b, keys)[k - la];
                assert(bindings_spec(e)[bindings_spec(*a).len() + j] == bindings_spec(*b)[j]);
            }
        },
        WhereExpr::Equal(a, b) => {
            assert(bindings_spec(e)[0] == pk_bindings(e, keys)[k]);
        },
        _ => {},
    }
}

/// Every binding of a predicate that holds of a row is the row's value in that column.
pub proof fn lemma_bindings_hold(e: WhereExpr, row: Seq<Datum>, names: Seq<Seq<u8>>)
    requires
        holds(e, row, names),
    ensures
        forall|b: (Seq<u8>, Datum)| #[trigger] bindings_spec(e).contains(b)
            ==> binding_in_row(b, row, names),
{
    assert forall|b: (Seq<u8>, Datum)| #[trigger] bindings_spec(e).contains(b)
        implies binding_in_row(b, row, names) by {
        let k = choose|k: int| 0 <= k < bindings_spec(e).len() && bindings_spec(e)[k] == b;
        lemma_binding_holds(e, row, names, k);
    }
}

/// With every column it reads present, an expression never fails for want of a column.
pub proof fn lemma_eval_no_schema_error(e: WhereExpr, row: Seq<Datum>, names: Seq<Seq<u8>>)
    requires
        all_in(columns_read(e), names),
        row.len() == names.len(),
    ensures
        eval_spec(e, row, names) != Err::<Datum, DbError>(DbError::Schema),
    decreases e,
{
    match e {
        WhereExpr::Literal(_) => {},
        WhereExpr::Column(n) => {
            assert(columns_read(e)[0] == n@);
            lemma_col_pos_range(names, n@);
        },
        WhereExpr::Not(a) => {
            lemma_eval_no_schema_error(*a, row, names);
        },
        WhereExpr::Sum(a, b) | WhereExpr::Sub(a, b) | WhereExpr::Mul(a, b) | WhereExpr::Div(a, b)
        | WhereExpr::And(a, b) | WhereExpr::Or(a, b) | WhereExpr::Equal(a, b) | WhereExpr::Gt(a, b)
        | WhereExpr::Gte(a, b) | WhereExpr::Lt(a, b) | WhereExpr::Lte(a, b) => {
            let ca = columns_read(*a);
            let cb = columns_read(*b);
            assert(columns_read(e) == ca + cb);
            assert forall|j: int| 0 <= j < ca.len()
                implies #[trigger] col_pos(names, ca[j]) is Some by {
                assert(columns_read(e)[j] == ca[j]);
            }
            assert forall|j: int| 0 <= j < cb.len()
                implies #[trigger] col_pos(names, cb[j]) is Some by {
                assert(columns_read(e)[ca.len() + j] == cb[j]);
            }
            lemma_eval_no_schema_error(*a, row, names);
            lemma_eval_no_schema_error(*b, row, names);
        },
    }
}

/// Whether `e` is a conjunction of tests that a column equals a literal.
pub open spec fn equalities_only(e: WhereExpr) -> bool
    decreases e,
{
    match e {
        WhereExpr::Equal(a, b) => (*a) is Column && (*b) is Literal,
        WhereExpr::And(a, b) => equalities_only(*a) && equalities_only(*b),
        _ => false,
    }
}

/// A conjunction of column-equals-literal tests that holds of one row reads only known
/// columns, and gives a truth value on every row with the same column types.
pub proof fn lemma_equalities_decide(e: WhereExpr, row: Seq<Datum>, other: Seq<Datum>,
    names: Seq<Seq<u8>>)
    requires
        equalities_only(e),
        holds(e, row, names),
        row.len() == names.len(),
        other.len() == names.len(),
        forall|i: int| 0 <= i < row.len() ==> (#[trigger] row[i]).typ() == other[i].typ(),
    ensures
        all_in(columns_read(e), names),
        eval_spec(e, other, names) is Ok,
        eval_spec(e, other, names)->Ok_0 is Bool,
    decreases e,
{
    match e {
        WhereExpr::Equal(a, b) => {
            match (*a, *b) {
                (WhereExpr::Column(c), WhereExpr::Literal(l)) => {
                    lemma_col_pos_range(names, c@);
                    let i = col_pos(names, c@)->Some_0;
                    assert(eval_spec(*a, row, names) == Ok::<Datum, DbError>(row[i]));
                    assert(eval_spec(*b, row, names) == Ok::<Datum, DbError>(l@));
                    assert(both(eval_spec(*a, row, names), eval_spec(*b, row, names))
                        == Ok::<(Datum, Datum), DbError>((row[i], l@)));
                    assert(row[i].typ() == l@.typ());
                    assert(columns_read(*a) =~= seq![c@]);
                    assert(columns_read(*b) =~= Seq::<Seq<u8>>::empty());
                    assert(columns_read(e) =~= seq![c@]);
                    assert(eval_spec(*a, other, names) == Ok::<Datum, DbError>(other[i]));
                    assert(eval_spec(*b, other, names) == Ok::<Datum, DbError>(l@));
                    assert(other[i].typ() == row[i].typ());
                    assert(both(eval_spec(*a, other, names), eval_spec(*b, other, names))
                        == Ok::<(Datum, Datum), DbError>((other[i], l@)));
                },
                _ => {},
            }
        },
        WhereExpr::And(a, b) => {
            assert(holds(*a, row, names) && holds(*b, row, names));
            lemma_equalities_decide(*a, row, other, names);
            lemma_equalities_decide(*b, row, other, names);
            let ca = columns_read(*a);
            let cb = columns_read(*b);
            assert(columns_read(e) == ca + cb);
            assert forall|j: int| 0 <= j < (ca + cb).len()
                implies #[trigger] col_pos(names, (ca + cb)[j]) is Some by {
                if j < ca.len() {
                    assert((ca + cb)[j] == ca[j]);
                } else {
                    assert((ca + cb)[j] == cb[j - ca.len()]);
                }
            }
        },
        _ => {},
    }
}

/// A conjunction is true exactly when both sides are, and it evaluates both sides
/// whatever the first gives.
pub proof fn lemma_and_is_conjunction(a: WhereExpr, b: WhereExpr, row: Seq<Datum>,
    names: Seq<Seq<u8>>, x: bool, y: bool)
    requires
        eval_spec(a, row, names) == Ok::<Datum, DbError>(Datum::Bool(x)),
        eval_spec(b, row, names) == Ok::<Datum, DbError>(Datum::Bool(y)),
    ensures
        eval_spec(WhereExpr::And(Box::new(a), Box::new(b)), row, names)
            == Ok::<Datum, DbError>(Datum::Bool(x && y)),
{
}

/// Whether `name` is one of `names`.
pub fn contains_name(names: &Vec<Vec<u8>>, name: &[u8]) -> (r: bool)
    ensures
        r == views_of(names@).contains(name@),
{
    let mut i: usize = 0;
    while i < names.len()
        invariant
            0 <= i <= names@.len(),
            forall|j: int| 0 <= j < i ==> names@[j]@ != name@,
        decreases names@.len() - i,
    {
        if bytes_eq(names[i].as_slice(), name) {
            assert(views_of(names@)[i as int] == name@);
            return true;
        }
        i = i + 1;
    }
    assert forall|j: int| 0 <= j < views_of(names@).len() implies views_of(names@)[j] != name@ by {
        assert(names@[j]@ != name@);
    }
    false
}

/// Both operand results, the first error winning.
fn pair(x: Result<Val, DbError>, y: Result<Val, DbError>) -> (r: Result<(Val, Val), DbError>)
    ensures
        match r {
            Ok((a, b)) => both(res_view(x), res_view(y)) == Ok::<(Datum, Datum), DbError>((a@, b@)),
            Err(e) => both(res_view(x), res_view(y)) == Err::<(Datum, Datum), DbError>(e),
        },
{
    match x {
        Err(e) => Err(e),
        Ok(a) => match y {
            Err(e) => Err(e),
            Ok(b) => Ok((a, b)),
        },
    }
}

fn bools(p: Result<(Val, Val), DbError>) -> (r: Result<(bool, bool), DbError>)
    ensures
        r == bool_pair(
            match p {
                Ok((a, b)) => Ok::<(Datum, Datum), DbError>((a@, b@)),
                Err(e) => Err(e),
            },
        ),
{
    match p {
        Err(e) => Err(e),
        Ok((Val::Boolean(a), Val::Boolean(b))) => Ok((a, b)),
        Ok(_) => Err(DbError::Type),
    }
}

impl WhereExpr {
    /// The column-to-literal equalities of the top-level conjunction of this predicate.
    pub fn bindings(&self) -> (r: Vec<(Vec<u8>, Val)>)
        ensures
            binds_view(r@) == bindings_spec(*self),
        decreases self,
    {
        let mut exprs: Vec<(Vec<u8>, Val)> = Vec::new();
        match self {
            WhereExpr::Equal(a, b) => match &**a {
                WhereExpr::Column(col) => match &**b {
                    WhereExpr::Literal(lit) => {
                        exprs.push((slice_to_vec(col.as_slice()), lit.duplicate()));
                        assert(binds_view(exprs@) =~= bindings_spec(*self));
                    },
                    _ => {},
                },
                _ => {},
            },
            WhereExpr::And(a, b) => {
                let mut left = a.bindings();
                let mut right = b.bindings();
                exprs.append(&mut left);
                exprs.append(&mut right);
                assert(binds_view(exprs@) =~= bindings_spec(*self));
            },
            _ => {},
        }
        assert(binds_view(exprs@) =~= bindings_spec(*self));
        exprs
    }

    /// The bindings of this predicate that pin a primary-key column of `schema`.
    pub fn lookup_by_pk(&self, schema: &Table) -> (r: Vec<(Vec<u8>, Val)>)
        ensures
            binds_view(r@) == pk_bindings(*self, schema.pk()),
        decreases self,
    {
        let mut exprs: Vec<(Vec<u8>, Val)> = Vec::new();
        match self {
            WhereExpr::Equal(a, b) => match &**a {
                WhereExpr::Column(col) => match &**b {
                    WhereExpr::Literal(lit) => {
                        if contains_name(&schema.primary_key, col.as_slice()) {
                            exprs.push((slice_to_vec(col.as_slice()), lit.duplicate()));
                        }
                        assert(binds_view(exprs@) =~= pk_bindings(*self, schema.pk()));
                    },
                    _ => {},
                },
                _ => {},
            },
            WhereExpr::And(a, b) => {
                let mut left = a.lookup_by_pk(schema);
                let mut right = b.lookup_by_pk(schema);
                exprs.append(&mut left);
                exprs.append(&mut right);
                assert(binds_view(exprs@) =~= pk_bindings(*self, schema.pk()));
            },
            _ => {},
        }
        assert(binds_view(exprs@) =~= pk_bindings(*self, schema.pk()));
        exprs
    }

    /// Whether every column that this expression reads is one of `schema`'s.
    pub fn columns_known(&self, schema: &Table) -> (r: bool)
        ensures
            r == all_in(columns_read(*self), schema.names()),
        decreases self,
    {
        let ghost names = schema.names();
        match self {
            WhereExpr::Literal(_) => true,
            WhereExpr::Column(n) => {
                let p = column_position(&schema.col_list, n.as_slice());
                assert(columns_read(*self)[0] == n@);
                p.is_some()
            },
            WhereExpr::Not(a) => a.columns_known(schema),
            WhereExpr::Sum(a, b) | WhereExpr::Sub(a, b) | WhereExpr::Mul(a, b) | WhereExpr::Div(a,
                b)
            | WhereExpr::And(a, b) | WhereExpr::Or(a, b) | WhereExpr::Equal(a,
                b) | WhereExpr::Gt(a, b)
            | WhereExpr::Gte(a, b) | WhereExpr::Lt(a, b) | WhereExpr::Lte(a, b) => {
                let ka = a.columns_known(schema);
                let kb = b.columns_known(schema);
                let ghost ca = columns_read(**a);
                let ghost cb = columns_read(**b);
                proof {
                    assert(columns_read(*self) == ca + cb);
                    if all_in(ca + cb, names) {
                        assert forall|j: int| 0 <= j < ca.len()
                            implies #[trigger] col_pos(names, ca[j]) is Some by {
                            assert((ca + cb)[j] == ca[j]);
                        }
                        assert forall|j: int| 0 <= j < cb.len()
                            implies #[trigger] col_pos(names, cb[j]) is Some by {
                            assert((ca + cb)[ca.len() + j] == cb[j]);
                        }
                    }
                    if ka && kb {
                        assert forall|j: int| 0 <= j < (ca + cb).len()
                            implies #[trigger] col_pos(names, (ca + cb)[j]) is Some by {
                            if j < ca.len() {
                                assert((ca + cb)[j] == ca[j]);
                            } else {
                                assert((ca + cb)[j] == cb[j - ca.len()]);
                            }
                        }
                    }
                }
                ka && kb
            },
        }
    }

    /// The value of this expression on `row`, whose columns are those of `schema`.
    pub fn eval(&self, row: &Vec<Val>, schema: &Table) -> (r: Result<Val, DbError>)
        ensures
            res_view(r) == eval_spec(*self, data_of(row@), schema.names()),
        decreases self,
    {
        proof {
            assert(data_of(row@).len() == row@.len());
        }
        match self {
            WhereExpr::Literal(v) => Ok(v.duplicate()),
            WhereExpr::Column(n) => match column_position(&schema.col_list, n.as_slice()) {
                Some(i) => if i < row.len() {
                    Ok(row[i].duplicate())
                } else {
                    Err(DbError::Schema)
                },
                None => Err(DbError::Schema),
            },
            WhereExpr::Sum(a, b) => match pair(a.eval(row, schema), b.eval(row, schema)) {
                Ok((x, y)) => x.add(&y),
                Err(e) => Err(e),
            },
            WhereExpr::Sub(a, b) => match pair(a.eval(row, schema), b.eval(row, schema)) {
                Ok((x, y)) => x.sub(&y),
                Err(e) => Err(e),
            },
            WhereExpr::Mul(a, b) => match pair(a.eval(row, schema), b.eval(row, schema)) {
                Ok((x, y)) => x.mul(&y),
                Err(e) => Err(e),
            },
            WhereExpr::Div(a, b) => match pair(a.eval(row, schema), b.eval(row, schema)) {
                Ok((x, y)) => x.div(&y),
                Err(e) => Err(e),
            },
            WhereExpr::And(a, b) => match bools(pair(a.eval(row, schema), b.eval(row, schema))) {
                Ok((x, y)) => Ok(Val::Boolean(x && y)),
                Err(e) => Err(e),
            },
            WhereExpr::Or(a, b) => match bools(pair(a.eval(row, schema), b.eval(row, schema))) {
                Ok((x, y)) => Ok(Val::Boolean(x || y)),
                Err(e) => Err(e),
            },
            WhereExpr::Not(a) => match a.eval(row, schema) {
                Ok(Val::Boolean(x)) => Ok(Val::Boolean(!x)),
                Ok(_) => Err(DbError::Type),
                Err(e) => Err(e),
            },
            WhereExpr::Equal(a, b) => match pair(a.eval(row, schema), b.eval(row, schema)) {
                Ok((x, y)) => match x.equals(&y) {
                    Ok(t) => Ok(Val::Boolean(t)),
                    Err(e) => Err(e),
                },
                Err(e) => Err(e),
            },
            WhereExpr::Gt(a, b) => match pair(a.eval(row, schema), b.eval(row, schema)) {
                Ok((x, y)) => match y.less_than(&x) {
                    Ok(t) => Ok(Val::Boolean(t)),
                    Err(e) => Err(e),
                },
                Err(e) => Err(e),
            },
            WhereExpr::Gte(a, b) => match pair(a.eval(row, schema), b.eval(row, schema)) {
                Ok((x, y)) => match x.less_than(&y) {
                    Ok(t) => Ok(Val::Boolean(!t)),
                    Err(e) => Err(e),
                },
                Err(e) => Err(e),
            },
            WhereExpr::Lt(a, b) => match pair(a.eval(row, schema), b.eval(row, schema)) {
                Ok((x, y)) => match x.less_than(&y) {
                    Ok(t) => Ok(Val::Boolean(t)),
                    Err(e) => Err(e),
                },
                Err(e) => Err(e),
            },
            WhereExpr::Lte(a, b) => match pair(a.eval(row, schema), b.eval(row, schema)) {
                Ok((x, y)) => match y.less_than(&x) {
                    Ok(t) => Ok(Val::Boolean(!t)),
                    Err(e) => Err(e),
                },
                Err(e) => Err(e),
            },
        }
    }
}

} // verus!
