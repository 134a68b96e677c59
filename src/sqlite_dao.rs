use vstd::prelude::*;
use vstd::multiset::Multiset;
use rusqlite::Connection;
use vstd::string::StringExecFns;
use crate::dao::{I64PrioQueueStorage, sorted_by_priority, all_le, lowest_of};

verus! {

broadcast use vstd::seq_lib::group_to_multiset_ensures;

#[verifier::external_type_specification]
#[verifier::external_body]
pub struct ExSqliteError(rusqlite::Error);

#[verifier::external_type_specification]
#[verifier::external_body]
pub struct ExConnection(Connection);

/// The rows of the queue table `table` in the database behind `c`, as
/// `(priority, value)` pairs.
pub uninterp spec fn table_rows(c: Connection, table: Seq<char>) -> Multiset<(i64, i64)>;

/// The rows of the queue table `table` as they stood when the open transaction on `c`
/// began.
pub uninterp spec fn rows_at_begin(c: Connection, table: Seq<char>) -> Multiset<(i64, i64)>;

/// Relies on `rusqlite::Connection::execute_batch`: `BEGIN` opens a transaction and
/// changes no row.
#[verifier::external_body]
fn begin_transaction(c: &mut Connection, table: &str) -> (r: Result<(), rusqlite::Error>)
    ensures
        table_rows(*final(c), table@) == table_rows(*old(c), table@),
        r is Ok ==> rows_at_begin(*final(c), table@) == table_rows(*old(c), table@),
{
    c.execute_batch("BEGIN")
}

/// Relies on `rusqlite::Connection::execute_batch`: `COMMIT` makes the rows of the
/// transaction durable and changes no row.
#[verifier::external_body]
fn commit_transaction(c: &mut Connection, table: &str) -> (r: Result<(), rusqlite::Error>)
    ensures
        r is Ok ==> table_rows(*final(c), table@) == table_rows(*old(c), table@),
{
    c.execute_batch("COMMIT")
}

/// Relies on `rusqlite::Connection::execute_batch`: `ROLLBACK` puts the rows back as
/// they stood when the transaction began.
#[verifier::external_body]
fn rollback_transaction(c: &mut Connection, table: &str) -> (r: Result<(), rusqlite::Error>)
    ensures
        r is Ok ==> table_rows(*final(c), table@) == rows_at_begin(*old(c), table@),
{
    c.execute_batch("ROLLBACK")
}

/// Relies on `rusqlite::Connection::open`: opens (or creates) the database at `path`;
/// `":memory:"` gives a private database in memory.
#[verifier::external_body]
fn open_connection(path: &str) -> (r: Result<Connection, rusqlite::Error>) {
    Connection::open(path)
}

/// Relies on `uuid::Uuid::new_v4`: a random identifier in hexadecimal digits, so that
/// two stores never share a table name.
#[verifier::external_body]
fn fresh_identifier() -> (r: String) {
    uuid::Uuid::new_v4().simple().to_string()
}

/// Relies on `rusqlite::Connection::execute_batch`: creates the temporary table
/// `table`, with an index on the priority. The new table is empty.
#[verifier::external_body]
fn create_queue_table(c: &mut Connection, table: &str) -> (r: Result<(), rusqlite::Error>)
    ensures
        r is Ok ==> table_rows(*final(c), table@) == Multiset::<(i64, i64)>::empty(),
{
    c.execute_batch(
        &format!(
            "CREATE TEMPORARY TABLE {table} (id INTEGER PRIMARY KEY AUTOINCREMENT, \
             priority INTEGER NOT NULL, value INTEGER NOT NULL); \
             CREATE INDEX {table}_priority_index ON {table} (priority);"
        ),
    )
}

/// Relies on `rusqlite::Connection::execute`: an `INSERT` adds one row.
#[verifier::external_body]
fn insert_row(c: &mut Connection, table: &str, item: (i64, i64)) -> (r: Result<(), rusqlite::Error>)
    ensures
        r is Ok ==> table_rows(*final(c), table@) == table_rows(*old(c), table@).insert(item),
        rows_at_begin(*final(c), table@) == rows_at_begin(*old(c), table@),
{
    c.execute(&format!("INSERT INTO {table} (priority, value) VALUES (?1, ?2)"), item).map(|_| ())
}

/// Relies on `rusqlite::Statement::query_map`: a `DELETE ... RETURNING` of the `count`
/// rows of lowest priority hands back exactly the rows it removed, in no set order.
#[verifier::external_body]
fn delete_lowest(c: &mut Connection, table: &str, count: usize) -> (r: Result<
    Vec<(i64, i64)>,
    rusqlite::Error,
>)
    ensures
        r is Ok ==> {
            let before = table_rows(*old(c), table@);
            let after = table_rows(*final(c), table@);
            let out = r->Ok_0@;
            &&& out.len() == if count < before.len() {
                count as int
            } else {
                before.len() as int
            }
            &&& before == after.add(out.to_multiset())
            &&& all_le(out.to_multiset(), after)
        },
{
    let mut stmt = c.prepare(
        &format!(
            "DELETE FROM {table} WHERE id IN (SELECT id FROM {table} ORDER BY priority \
             LIMIT {count}) RETURNING priority, value"
        ),
    )?;
    let rows = stmt.query_map([], |row| Ok((row.get(0)?, row.get(1)?)))?;
    rows.collect()
}

/// Relies on `rusqlite::Connection::query_row`: `MIN(priority)` is the least priority
/// of the table, and NULL when the table is empty.
#[verifier::external_body]
fn lowest_in_table(c: &Connection, table: &str) -> (r: Result<Option<i64>, rusqlite::Error>)
    ensures
        r is Ok ==> lowest_of(table_rows(*c, table@), r->Ok_0),
{
    c.query_row(&format!("SELECT MIN(priority) FROM {table}"), [], |row| row.get(0))
}

/// Relies on `rusqlite::Connection::query_row`: `COUNT(*)` is the number of rows.
#[verifier::external_body]
fn count_rows(c: &Connection, table: &str) -> (r: Result<usize, rusqlite::Error>)
    ensures
        r is Ok ==> r->Ok_0 == table_rows(*c, table@).len(),
{
    c.query_row(&format!("SELECT COUNT(*) FROM {table}"), [], |row| row.get::<usize, i64>(0)).map(
        |n| n as usize,
    )
}

/// Picks the pairs of priority `k`.
pub open spec fn with_priority(k: i64) -> spec_fn((i64, i64)) -> bool {
    |e: (i64, i64)| e.0 == k
}

proof fn lemma_filter_push(s: Seq<(i64, i64)>, x: (i64, i64), p: spec_fn((i64, i64)) -> bool)
    ensures
        s.push(x).filter(p) == if p(x) {
            s.filter(p).push(x)
        } else {
            s.filter(p)
        },
{
    reveal(Seq::filter);
    assert(s.push(x).drop_last() =~= s);
}

/// Inserting `x` in front of pairs of greater priority appends it to the pairs of its
/// own priority and leaves the others as they were.
proof fn lemma_filter_insert_before_greater(s: Seq<(i64, i64)>, pos: int, x: (i64, i64), k: i64)
    requires
        0 <= pos <= s.len(),
        forall|j: int| pos <= j < s.len() ==> #[trigger] s[j].0 > x.0,
    ensures
        s.insert(pos, x).filter(with_priority(k)) == if x.0 == k {
            s.filter(with_priority(k)).push(x)
        } else {
            s.filter(with_priority(k))
        },
{
    let p = with_priority(k);
    let a = s.subrange(0, pos);
    let b = s.subrange(pos, s.len() as int);
    let one = Seq::<(i64, i64)>::empty().push(x);
    assert(s =~= a + b);
    assert(s.insert(pos, x) =~= (a + one) + b);
    Seq::filter_distributes_over_add(a + one, b, p);
    Seq::filter_distributes_over_add(a, one, p);
    Seq::filter_distributes_over_add(a, b, p);
    lemma_filter_push(Seq::<(i64, i64)>::empty(), x, p);
    reveal(Seq::filter);
    assert(Seq::<(i64, i64)>::empty().filter(p) =~= Seq::<(i64, i64)>::empty());
    if x.0 == k {
        if b.filter(p).len() > 0 {
            b.lemma_filter_pred(p, 0);
            let e = b.filter(p)[0];
            assert(b.filter(p).contains(e));
            b.lemma_filter_contains_rev(p, e);
            let j = choose|j: int| 0 <= j < b.len() && b[j] == e;
            assert(s[pos + j].0 > x.0);
        }
        assert(b.filter(p) =~= Seq::<(i64, i64)>::empty());
        assert(s.insert(pos, x).filter(p) =~= s.filter(p).push(x));
    } else {
        assert(s.insert(pos, x).filter(p) =~= s.filter(p));
    }
}

/// The pairs of `v` in ascending order of priority; pairs of equal priority keep
/// their order.
pub fn sort_by_priority(v: &Vec<(i64, i64)>) -> (r: Vec<(i64, i64)>)
    ensures
        r@.to_multiset() == v@.to_multiset(),
        sorted_by_priority(r@),
        forall|k: i64| #[trigger] r@.filter(with_priority(k)) == v@.filter(with_priority(k)),
{
    let mut out: Vec<(i64, i64)> = Vec::new();
    let mut i: usize = 0;
    while i < v.len()
        invariant
            i <= v.len(),
            out@.to_multiset() == v@.subrange(0, i as int).to_multiset(),
            sorted_by_priority(out@),
            forall|k: i64| #[trigger] out@.filter(with_priority(k)) == v@.subrange(0, i as int).filter(
                with_priority(k),
            ),
        decreases v.len() - i,
    {
        let x = v[i];
        let mut pos: usize = out.len();
        while pos > 0 && out[pos - 1].0 > x.0
            invariant
                pos <= out.len(),
                forall|j: int| pos <= j < out@.len() ==> #[trigger] out@[j].0 > x.0,
            decreases pos,
        {
            pos = pos - 1;
        }
        let ghost before = out@;
        out.insert(pos, x);
        proof {
            assert(out@ == before.insert(pos as int, x));
            assert(v@.subrange(0, i + 1) =~= v@.subrange(0, i as int).push(x));
            assert forall|k: i64| #[trigger] out@.filter(with_priority(k)) == v@.subrange(
                0,
                i + 1,
            ).filter(with_priority(k)) by {
                lemma_filter_insert_before_greater(before, pos as int, x, k);
                lemma_filter_push(v@.subrange(0, i as int), x, with_priority(k));
            }
            assert forall|a: int, b: int| 0 <= a < b < out@.len() implies out@[a].0 <= out@[b].0 by {
                if b < pos {
                } else if b == pos {
                    assert(before[a].0 <= before[pos - 1].0);
                } else if a < pos {
                    assert(out@[b] == before[b - 1]);
                    if a == pos {
                    } else {
                        assert(before[a].0 <= before[b - 1].0);
                    }
                } else if a == pos {
                    assert(out@[b] == before[b - 1]);
                } else {
                    assert(before[a - 1].0 <= before[b - 1].0);
                }
            }
        }
        i = i + 1;
    }
    proof {
        assert(v@.subrange(0, v@.len() as int) =~= v@);
    }
    out
}

/// A store of pairs in a temporary table of an SQLite database.
pub struct SqlitePrioQueueDao {
    connection: Connection,
    table: String,
}

impl SqlitePrioQueueDao {
    /// Opens the database at `path` and creates a fresh, empty queue table in it.
    pub fn new(path: &str) -> (r: Result<Self, rusqlite::Error>)
        ensures
            r is Ok ==> r->Ok_0.contents().len() == 0,
    {
        let mut connection = open_connection(path)?;
        let mut table = "primer_prio_queue_".to_owned();
        let identifier = fresh_identifier();
        table.append(identifier.as_str());
        create_queue_table(&mut connection, table.as_str())?;
        Ok(SqlitePrioQueueDao { connection, table })
    }
}

impl I64PrioQueueStorage for SqlitePrioQueueDao {
    closed spec fn contents(&self) -> Multiset<(i64, i64)> {
        table_rows(self.connection, self.table@)
    }

    /// All of `items` go in within one transaction: when a row or the commit fails,
    /// the rows already written are rolled back.
    fn insert(&mut self, items: &Vec<(i64, i64)>) -> (r: Result<(), rusqlite::Error>) {
        let ghost start = self.contents();
        begin_transaction(&mut self.connection, self.table.as_str())?;
        let mut i: usize = 0;
        while i < items.len()
            invariant
                i <= items.len(),
                self.table == old(self).table,
                self.contents() == start.add(items@.subrange(0, i as int).to_multiset()),
                rows_at_begin(self.connection, self.table@) == start,
            decreases items.len() - i,
        {
            if let Err(e) = insert_row(&mut self.connection, self.table.as_str(), items[i]) {
                rollback_transaction(&mut self.connection, self.table.as_str())?;
                return Err(e);
            }
            proof {
                assert(items@.subrange(0, i + 1) =~= items@.subrange(0, i as int).push(
                    items@[i as int],
                ));
                assert(start.add(items@.subrange(0, i + 1).to_multiset()) =~= start.add(
                    items@.subrange(0, i as int).to_multiset(),
                ).insert(items@[i as int]));
            }
            i = i + 1;
        }
        proof {
            assert(items@.subrange(0, items@.len() as int) =~= items@);
        }
        if let Err(e) = commit_transaction(&mut self.connection, self.table.as_str()) {
            rollback_transaction(&mut self.connection, self.table.as_str())?;
            return Err(e);
        }
        Ok(())
    }

    fn retrieve(&mut self, count: usize) -> (r: Result<Vec<(i64, i64)>, rusqlite::Error>) {
        let data = delete_lowest(&mut self.connection, self.table.as_str(), count)?;
        let sorted = sort_by_priority(&data);
        proof {
            assert(sorted@.len() == sorted@.to_multiset().len());
            assert(data@.len() == data@.to_multiset().len());
        }
        Ok(sorted)
    }

    fn lowest_priority(&self) -> (r: Result<Option<i64>, rusqlite::Error>) {
        lowest_in_table(&self.connection, self.table.as_str())
    }

    fn len(&self) -> (r: Result<usize, rusqlite::Error>) {
        count_rows(&self.connection, self.table.as_str())
    }

    fn is_empty(&self) -> (r: Result<bool, rusqlite::Error>) {
        let n = self.len()?;
        Ok(n == 0)
    }

    fn is_not_empty(&self) -> (r: Result<bool, rusqlite::Error>) {
        let empty = self.is_empty()?;
        Ok(!empty)
    }
}

} // verus!
