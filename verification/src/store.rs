use crate::filter::query_matches;
use crate::snippet::{views_of, Snippet, SnippetView};
use rusqlite::Connection;
use vstd::prelude::*;

verus! {

#[verifier::external_type_specification]
#[verifier::external_body]
pub struct ExConnection(Connection);

#[verifier::external_type_specification]
#[verifier::external_body]
pub struct ExRusqliteError(rusqlite::Error);

/// The rows of the `snippets` table behind a connection, in rowid order.
/// Each database is owned by the one connection open on it for the life of
/// the process — the store handle is a single owner, never shared — so the
/// rows are read as a function of that handle alone.
pub uninterp spec fn db_rows(c: Connection) -> Seq<SnippetView>;

/// Whether the `snippets` table behind the connection is declared letter for
/// letter as `canonical_schema` spells it, so that SQLite enforces its
/// `INTEGER PRIMARY KEY AUTOINCREMENT` and `UNIQUE` constraints on every row.
pub uninterp spec fn db_schema_ok(c: Connection) -> bool;

/// The declaration of the `snippets` table as SQLite stores it: the
/// `CREATE TABLE` statement with `IF NOT EXISTS` dropped.
pub open spec fn canonical_schema() -> Seq<char> {
    "CREATE TABLE snippets (id INTEGER PRIMARY KEY AUTOINCREMENT, command TEXT NOT NULL UNIQUE, created_at TEXT DEFAULT (datetime('now')))"@
}

/// Strict lexicographic order on character sequences, matching SQLite's
/// BINARY collation on TEXT (byte order on UTF-8 agrees with code points).
pub open spec fn lex_lt(a: Seq<char>, b: Seq<char>) -> bool
    decreases a.len(),
{
    if b.len() == 0 {
        false
    } else if a.len() == 0 {
        true
    } else if (a.first() as u32) < (b.first() as u32) {
        true
    } else if (b.first() as u32) < (a.first() as u32) {
        false
    } else {
        lex_lt(a.drop_first(), b.drop_first())
    }
}

/// `a` sorts no later than `b` in listing order: `created_at` descending,
/// ties broken by `id` descending.
pub open spec fn listed_no_later(a: SnippetView, b: SnippetView) -> bool {
    lex_lt(b.created_at, a.created_at) || (a.created_at == b.created_at && a.id >= b.id)
}

/// The sequence is sorted in listing order.
pub open spec fn sorted_listing(s: Seq<SnippetView>) -> bool {
    forall|i: int, j: int|
        #![trigger s[i], s[j]]
        0 <= i < j < s.len() ==> listed_no_later(s[i], s[j])
}

/// No two rows share an id or a command text.
pub open spec fn distinct_rows(s: Seq<SnippetView>) -> bool {
    forall|i: int, j: int|
        #![trigger s[i], s[j]]
        0 <= i < j < s.len() ==> s[i].id != s[j].id && s[i].command != s[j].command
}

/// Some row carries this command text.
pub open spec fn has_command(s: Seq<SnippetView>, cmd: Seq<char>) -> bool {
    exists|i: int| 0 <= i < s.len() && (#[trigger] s[i]).command == cmd
}

/// Some row carries this id.
pub open spec fn has_id(s: Seq<SnippetView>, id: int) -> bool {
    exists|i: int| 0 <= i < s.len() && (#[trigger] s[i]).id == id
}

/// The predicate selecting rows with this command text.
pub open spec fn cmd_pred(cmd: Seq<char>) -> spec_fn(SnippetView) -> bool {
    |r: SnippetView| r.command == cmd
}

/// The predicate selecting rows whose id differs from `id`.
pub open spec fn keep_pred(id: int) -> spec_fn(SnippetView) -> bool {
    |r: SnippetView| r.id != id
}

/// The predicate selecting rows whose command matches the query.
pub open spec fn match_pred(query: Seq<char>) -> spec_fn(SnippetView) -> bool {
    |r: SnippetView| query_matches(r.command, query)
}

/// The rows carrying this command text.
pub open spec fn rows_with_command(s: Seq<SnippetView>, cmd: Seq<char>) -> Seq<SnippetView> {
    s.filter(cmd_pred(cmd))
}

/// The rows left after removing those with this id.
pub open spec fn without_id(s: Seq<SnippetView>, id: int) -> Seq<SnippetView> {
    s.filter(keep_pred(id))
}

/// The rows whose command matches the query.
pub open spec fn matching_rows(s: Seq<SnippetView>, query: Seq<char>) -> Seq<SnippetView> {
    s.filter(match_pred(query))
}

/// The errors a store operation can surface.
#[derive(Debug)]
pub enum StoreError {
    /// The backing database could not be created or opened.
    StorageInit(rusqlite::Error),
    /// The database at the opened path already holds a `snippets` table
    /// declared differently from this library's schema.
    IncompatibleSchema,
    /// No row carries the id handed to `delete`.
    NotFound(i32),
    /// The backing database failed during an operation.
    Sql(rusqlite::Error),
}

/// The durable snippet store: a handle on the SQLite database that owns the
/// `snippets` table.
pub struct Store {
    conn: Connection,
}

impl Store {
    /// The mathematical contents of the store.
    pub closed spec fn rows(&self) -> Seq<SnippetView> {
        db_rows(self.conn)
    }

    /// Well-formedness: the table carries this library's schema, whose
    /// `INTEGER PRIMARY KEY` and `UNIQUE` constraints keep ids and command
    /// texts unique across the table.
    pub closed spec fn inv(&self) -> bool {
        db_schema_ok(self.conn) && distinct_rows(self.rows())
    }

    /// Relies on `rusqlite::Connection::open` and `Connection::execute_batch`:
    /// opens (creating if absent) the database at `path` and creates the
    /// `snippets` table where none exists. `IF NOT EXISTS` leaves a
    /// pre-existing table as it was, so nothing is claimed of the rows
    /// unless the table declares this library's schema, whose constraints
    /// SQLite then enforces on every row.
    #[verifier::external_body]
    fn open_at(path: &str) -> (r: Result<Store, rusqlite::Error>)
        ensures
            r matches Ok(s) ==> (db_schema_ok(s.conn) ==> distinct_rows(db_rows(s.conn))),
    {
        let conn = Connection::open(path)?;
        conn.execute_batch(
            "CREATE TABLE IF NOT EXISTS snippets (id INTEGER PRIMARY KEY AUTOINCREMENT, command TEXT NOT NULL UNIQUE, created_at TEXT DEFAULT (datetime('now')));",
        )?;
        Ok(Store { conn })
    }

    /// Relies on `rusqlite::Connection::open_in_memory` and
    /// `Connection::execute_batch`: a fresh, private in-memory database
    /// holds no rows, and its `snippets` table is created here with exactly
    /// this library's declaration.
    #[verifier::external_body]
    fn open_mem() -> (r: Result<Store, rusqlite::Error>)
        ensures
            r matches Ok(s) ==> db_rows(s.conn) == Seq::<SnippetView>::empty() && db_schema_ok(
                s.conn,
            ),
    {
        let conn = Connection::open_in_memory()?;
        conn.execute_batch(
            "CREATE TABLE IF NOT EXISTS snippets (id INTEGER PRIMARY KEY AUTOINCREMENT, command TEXT NOT NULL UNIQUE, created_at TEXT DEFAULT (datetime('now')));",
        )?;
        Ok(Store { conn })
    }

    /// Relies on `rusqlite::Connection::prepare` and
    /// `rusqlite::Statement::query` reading `sqlite_master`: its `sql`
    /// column holds the stored declaration of the `snippets` table — the
    /// `CREATE TABLE` text with `IF NOT EXISTS` dropped — so the table is
    /// declared as this library declares it exactly when that text is the
    /// canonical one.
    #[verifier::external_body]
    fn read_schema(&self) -> (r: Result<String, rusqlite::Error>)
        ensures
            r matches Ok(t) ==> (t@ == canonical_schema() ==> db_schema_ok(self.conn)),
    {
        let mut stmt = self.conn.prepare(
            "SELECT sql FROM sqlite_master WHERE type = 'table' AND name = 'snippets'",
        )?;
        let mut rows = stmt.query([])?;
        match rows.next()? {
            Some(row) => row.get(0),
            None => Err(rusqlite::Error::QueryReturnedNoRows),
        }
    }

    /// Relies on `rusqlite::Connection::execute` running `INSERT OR IGNORE`:
    /// a duplicate command text hits the `UNIQUE` constraint and is ignored,
    /// leaving the table unchanged; otherwise one row is appended whose id
    /// `AUTOINCREMENT` makes strictly larger than every id used so far, and
    /// whose `created_at` defaults to the insertion time. A failed statement
    /// changes nothing: each statement runs in its own transaction. All of
    /// this holds of a table declared with this library's schema, which the
    /// statement leaves in place.
    #[verifier::external_body]
    fn raw_insert(&mut self, command: &str) -> (r: Result<(), rusqlite::Error>)
        requires
            db_schema_ok(old(self).conn),
        ensures
            db_schema_ok(final (self).conn),
            r is Ok && has_command(old(self).rows(), command@) ==> final (self).rows() == old(
                self,
            ).rows(),
            r is Ok && !has_command(old(self).rows(), command@) ==> exists|id: int, ts: Seq<char>|
                final (self).rows() == old(self).rows().push(
                    SnippetView { id, command: command@, created_at: ts },
                ) && (forall|j: int|
                    0 <= j < old(self).rows().len() ==> (#[trigger] old(self).rows()[j]).id < id),
            r is Err ==> final (self).rows() == old(self).rows(),
    {
        self.conn.execute("INSERT OR IGNORE INTO snippets (command) VALUES (?1)", [command]).map(
            |_| (),
        )
    }

    /// Relies on `Connection::prepare` and `rusqlite::Statement::query`
    /// running `SELECT ... ORDER BY created_at DESC, id DESC`: the result
    /// holds exactly the table's rows, sorted by `created_at` descending with
    /// ties broken by `id` descending (TEXT compares byte-wise under the
    /// default BINARY collation, which on UTF-8 agrees with code-point order).
    #[verifier::external_body]
    fn raw_list(&self) -> (r: Result<Vec<Snippet>, rusqlite::Error>)
        ensures
            r matches Ok(v) ==> views_of(v@).to_multiset() == self.rows().to_multiset()
                && sorted_listing(views_of(v@)),
    {
        let mut stmt = self.conn.prepare(
            "SELECT id, command, created_at FROM snippets ORDER BY created_at DESC, id DESC",
        )?;
        let mut rows = stmt.query([])?;
        let mut out: Vec<Snippet> = Vec::new();
        while let Some(row) = rows.next()? {
            out.push(Snippet { id: row.get(0)?, command: row.get(1)?, created_at: row.get(2)? });
        }
        Ok(out)
    }

    /// Relies on `rusqlite::Connection::execute` running `DELETE FROM
    /// snippets WHERE id = ?1`: afterwards the table holds exactly the rows
    /// whose id differs, and the returned count is the number of rows
    /// removed, whatever the table's declaration, which the statement leaves
    /// in place. A failed statement changes nothing.
    #[verifier::external_body]
    fn raw_delete(&mut self, id: i32) -> (r: Result<usize, rusqlite::Error>)
        ensures
            db_schema_ok(final (self).conn) == db_schema_ok(old(self).conn),
            r matches Ok(n) ==> final (self).rows() == without_id(old(self).rows(), id as int) && n
                == old(self).rows().len() - final (self).rows().len(),
            r is Err ==> final (self).rows() == old(self).rows(),
    {
        self.conn.execute("DELETE FROM snippets WHERE id = ?1", [id])
    }

    /// Accepts the store exactly when the declared `snippets` schema text is
    /// the canonical one, and refuses it with `IncompatibleSchema` on any
    /// other text: this comparison is the whole decision between opening a
    /// database and turning it away.
    pub fn accept_schema(store: Store, declared: String) -> (r: Result<Store, StoreError>)
        ensures
            declared@ == canonical_schema() ==> (r matches Ok(s) && s == store),
            declared@ != canonical_schema() ==> (r matches Err(e) && e is IncompatibleSchema),
    {
        let expected =
            "CREATE TABLE snippets (id INTEGER PRIMARY KEY AUTOINCREMENT, command TEXT NOT NULL UNIQUE, created_at TEXT DEFAULT (datetime('now')))".to_owned();
        if declared == expected {
            Ok(store)
        } else {
            Err(StoreError::IncompatibleSchema)
        }
    }

    /// Opens (creating as needed) the snippet store at `path`, and refuses a
    /// database whose `snippets` table is declared differently from this
    /// library's schema: `CREATE TABLE IF NOT EXISTS` would leave such a
    /// table as it is, and nothing would enforce the store's uniqueness
    /// guarantees.
    pub fn open(path: &str) -> (r: Result<Store, StoreError>)
        ensures
            r matches Ok(s) ==> s.inv(),
            r matches Err(e) ==> (e is StorageInit || e is IncompatibleSchema),
    {
        let store = match Self::open_at(path) {
            Ok(s) => s,
            Err(e) => {
                return Err(StoreError::StorageInit(e));
            },
        };
        let declared = match store.read_schema() {
            Ok(t) => t,
            Err(e) => {
                return Err(StoreError::StorageInit(e));
            },
        };
        Self::accept_schema(store, declared)
    }

    /// Opens a fresh, empty in-memory store.
    pub fn open_in_memory() -> (r: Result<Store, StoreError>)
        ensures
            r matches Ok(s) ==> s.inv() && s.rows() == Seq::<SnippetView>::empty(),
            r matches Err(e) ==> e is StorageInit,
    {
        match Self::open_mem() {
            Ok(s) => Ok(s),
            Err(e) => Err(StoreError::StorageInit(e)),
        }
    }

    /// Inserts a snippet with this command text; a duplicate is a silent
    /// no-op. Afterwards exactly one row carries the text, and a genuinely
    /// new row is appended with an id larger than every existing one.
    pub fn save(&mut self, command: &str) -> (r: Result<(), StoreError>)
        requires
            old(self).inv(),
        ensures
            final (self).inv(),
            r matches Err(e) ==> e is Sql && final (self).rows() == old(self).rows(),
            r is Ok ==> rows_with_command(final (self).rows(), command@).len() == 1,
            r is Ok && has_command(old(self).rows(), command@) ==> final (self).rows() == old(
                self,
            ).rows(),
            r is Ok && !has_command(old(self).rows(), command@) ==> exists|id: int, ts: Seq<char>|
                final (self).rows() == old(self).rows().push(
                    SnippetView { id, command: command@, created_at: ts },
                ) && (forall|j: int|
                    0 <= j < old(self).rows().len() ==> (#[trigger] old(self).rows()[j]).id < id),
    {
        let ghost pre_rows = self.rows();
        match self.raw_insert(command) {
            Ok(()) => {
                proof {
                    if has_command(pre_rows, command@) {
                        lemma_with_command_cases(pre_rows, command@);
                    } else {
                        let (id, ts): (int, Seq<char>) = choose|id: int, ts: Seq<char>|
                            self.rows() == pre_rows.push(
                                SnippetView { id, command: command@, created_at: ts },
                            ) && (forall|j: int|
                                0 <= j < pre_rows.len() ==> (#[trigger] pre_rows[j]).id < id);
                        let added = SnippetView { id, command: command@, created_at: ts };
                        assert forall|j: int|
                            0 <= j < pre_rows.len() implies (#[trigger] pre_rows[j]).id != added.id
                            && pre_rows[j].command != added.command by {
                            assert(pre_rows[j].id < id);
                        }
                        lemma_push_distinct_ids(pre_rows, added);
                        lemma_with_command_cases(pre_rows, command@);
                        lemma_filter_push(pre_rows, added, cmd_pred(command@));
                        assert(rows_with_command(self.rows(), command@)
                            == rows_with_command(pre_rows, command@).push(added));
                    }
                }
                Ok(())
            },
            Err(e) => Err(StoreError::Sql(e)),
        }
    }

    /// Lists every snippet, most recent first: ordered by `created_at`
    /// descending, ties broken by `id` descending (insertion order reversed,
    /// since ids grow with each insertion).
    pub fn list(&self) -> (r: Result<Vec<Snippet>, StoreError>)
        ensures
            r matches Err(e) ==> e is Sql,
            r matches Ok(v) ==> views_of(v@).to_multiset() == self.rows().to_multiset()
                && sorted_listing(views_of(v@)),
    {
        match self.raw_list() {
            Ok(v) => Ok(v),
            Err(e) => Err(StoreError::Sql(e)),
        }
    }

    /// Lists the snippets whose command contains the query as a
    /// case-insensitive substring, in the same order as `list`.
    pub fn search(&self, query: &str) -> (r: Result<Vec<Snippet>, StoreError>)
        ensures
            r matches Err(e) ==> e is Sql,
            r matches Ok(v) ==> views_of(v@).to_multiset() == matching_rows(
                self.rows(),
                query@,
            ).to_multiset() && sorted_listing(views_of(v@)),
    {
        let listed = match self.raw_list() {
            Ok(v) => v,
            Err(e) => {
                return Err(StoreError::Sql(e));
            },
        };
        let ql = crate::filter::lower_str(query);
        let mut out: Vec<Snippet> = Vec::new();
        let mut i: usize = 0;
        while i < listed.len()
            invariant
                i <= listed@.len(),
                ql@ == crate::filter::lower_of(query@),
                views_of(out@) == matching_rows(views_of(listed@).take(i as int), query@),
            decreases listed@.len() - i,
        {
            let cl = crate::filter::lower_str(listed[i].command.as_str());
            let matched = crate::filter::contains_chars(&cl, &ql);
            proof {
                reveal(Seq::filter);
                let vs = views_of(listed@);
                assert(vs.take(i as int + 1).drop_last() =~= vs.take(i as int));
                assert(vs.take(i as int + 1).last() == listed@[i as int]@);
                assert(matched == match_pred(query@)(vs[i as int]));
                assert(matching_rows(vs.take(i as int + 1), query@) == (if matched {
                    matching_rows(vs.take(i as int), query@).push(vs[i as int])
                } else {
                    matching_rows(vs.take(i as int), query@)
                }));
            }
            if matched {
                let entry = Snippet {
                    id: listed[i].id,
                    command: listed[i].command.clone(),
                    created_at: listed[i].created_at.clone(),
                };
                let ghost out_pre = out@;
                out.push(entry);
                proof {
                    assert(views_of(out@) =~= views_of(out_pre).push(listed@[i as int]@));
                }
            }
            i += 1;
        }
        proof {
            let vs = views_of(listed@);
            assert(vs.take(listed@.len() as int) =~= vs);
            lemma_matching_to_ms(vs, query@);
            lemma_matching_to_ms(self.rows(), query@);
            lemma_matching_sorted(vs, query@);
        }
        Ok(out)
    }

    /// Removes the snippet with this id. Fails with `NotFound`, leaving every
    /// row in place, exactly when no row carries the id.
    pub fn delete(&mut self, id: i32) -> (r: Result<(), StoreError>)
        requires
            old(self).inv(),
        ensures
            final (self).inv(),
            r is Ok ==> has_id(old(self).rows(), id as int) && final (self).rows() == without_id(
                old(self).rows(),
                id as int,
            ) && final (self).rows().len() == old(self).rows().len() - 1,
            r matches Err(e) ==> final (self).rows() == old(self).rows() && (e is NotFound || e
                is Sql),
            r matches Err(e) ==> (e matches StoreError::NotFound(d) ==> d == id && !has_id(
                old(self).rows(),
                id as int,
            )),
            !has_id(old(self).rows(), id as int) ==> !(r is Ok),
    {
        let ghost pre_rows = self.rows();
        match self.raw_delete(id) {
            Ok(n) => {
                proof {
                    lemma_without_id_cases(pre_rows, id as int);
                    lemma_filter_distinct(pre_rows, keep_pred(id as int));
                }
                if n == 0 {
                    Err(StoreError::NotFound(id))
                } else {
                    Ok(())
                }
            },
            Err(e) => Err(StoreError::Sql(e)),
        }
    }
}

/// Filtering a pushed sequence filters the prefix and then decides the new
/// last element.
proof fn lemma_filter_push(s: Seq<SnippetView>, x: SnippetView, p: spec_fn(SnippetView) -> bool)
    ensures
        s.push(x).filter(p) == if p(x) {
            s.filter(p).push(x)
        } else {
            s.filter(p)
        },
{
    reveal(Seq::filter);
    assert(s.push(x).drop_last() =~= s);
    assert(s.push(x).last() == x);
}

/// With distinct rows, a present command is carried by exactly one row and an
/// absent one by none.
proof fn lemma_with_command_cases(s: Seq<SnippetView>, cmd: Seq<char>)
    requires
        distinct_rows(s),
    ensures
        has_command(s, cmd) ==> rows_with_command(s, cmd).len() == 1,
        !has_command(s, cmd) ==> rows_with_command(s, cmd) == s.filter(cmd_pred(cmd)) && s.filter(
            cmd_pred(cmd),
        ).len() == 0,
    decreases s.len(),
{
    reveal(Seq::filter);
    if s.len() == 0 {
    } else {
        let pre = s.drop_last();
        assert(forall|i: int| 0 <= i < pre.len() ==> pre[i] == s[i]);
        lemma_with_command_cases(pre, cmd);
        if s.last().command == cmd {
            assert(has_command(s, cmd));
            assert(!has_command(pre, cmd)) by {
                if has_command(pre, cmd) {
                    let w = choose|i: int| 0 <= i < pre.len() && (#[trigger] pre[i]).command
                        == cmd;
                    assert(s[w].command == s[s.len() - 1].command);
                }
            }
            assert(rows_with_command(s, cmd) == rows_with_command(pre, cmd).push(s.last()));
        } else {
            assert(rows_with_command(s, cmd) == rows_with_command(pre, cmd));
            if has_command(s, cmd) {
                let w = choose|i: int| 0 <= i < s.len() && (#[trigger] s[i]).command == cmd;
                assert(pre[w] == s[w]);
                assert(has_command(pre, cmd));
            } else {
                assert(!has_command(pre, cmd)) by {
                    if has_command(pre, cmd) {
                        let w = choose|i: int| 0 <= i < pre.len() && (#[trigger] pre[i]).command
                            == cmd;
                        assert(s[w].command == cmd);
                    }
                }
            }
        }
    }
}

/// With distinct rows, removing an id takes out exactly one row when the id
/// is present and nothing when it is absent.
proof fn lemma_without_id_cases(s: Seq<SnippetView>, id: int)
    requires
        distinct_rows(s),
    ensures
        has_id(s, id) ==> without_id(s, id).len() == s.len() - 1,
        !has_id(s, id) ==> without_id(s, id) == s,
    decreases s.len(),
{
    reveal(Seq::filter);
    if s.len() == 0 {
        assert(without_id(s, id) =~= s);
    } else {
        let pre = s.drop_last();
        assert(forall|i: int| 0 <= i < pre.len() ==> pre[i] == s[i]);
        lemma_without_id_cases(pre, id);
        if s.last().id == id {
            assert(has_id(s, id));
            assert(!has_id(pre, id)) by {
                if has_id(pre, id) {
                    let w = choose|i: int| 0 <= i < pre.len() && (#[trigger] pre[i]).id == id;
                    assert(s[w].id == s[s.len() - 1].id);
                }
            }
            assert(without_id(s, id) == without_id(pre, id));
        } else {
            assert(without_id(s, id) == without_id(pre, id).push(s.last()));
            if has_id(s, id) {
                let w = choose|i: int| 0 <= i < s.len() && (#[trigger] s[i]).id == id;
                assert(pre[w] == s[w]);
                assert(has_id(pre, id));
            } else {
                assert(!has_id(pre, id)) by {
                    if has_id(pre, id) {
                        let w = choose|i: int| 0 <= i < pre.len() && (#[trigger] pre[i]).id == id;
                        assert(s[w].id == id);
                    }
                }
                assert(without_id(s, id) =~= s);
            }
        }
    }
}

/// Filtering keeps rows distinct, whatever the predicate.
proof fn lemma_filter_distinct(s: Seq<SnippetView>, p: spec_fn(SnippetView) -> bool)
    requires
        distinct_rows(s),
    ensures
        distinct_rows(s.filter(p)),
    decreases s.len(),
{
    reveal(Seq::filter);
    if s.len() == 0 {
    } else {
        let pre = s.drop_last();
        assert(forall|i: int| 0 <= i < pre.len() ==> pre[i] == s[i]);
        lemma_filter_distinct(pre, p);
        if !p(s.last()) {
            assert(s.filter(p) == pre.filter(p));
        } else {
            assert(s.filter(p) == pre.filter(p).push(s.last()));
            let w = pre.filter(p);
            assert forall|k: int| 0 <= k < w.len() implies (#[trigger] w[k]).id != s.last().id
                && w[k].command != s.last().command by {
                broadcast use Seq::lemma_filter_contains_rev;

                assert(w.contains(w[k]));
                assert(pre.contains(w[k]));
                let m = choose|m: int| 0 <= m < pre.len() && pre[m] == w[k];
                assert(s[m] == w[k] && s[m].id != s[s.len() - 1].id && s[m].command != s[s.len()
                    - 1].command);
            }
            lemma_push_distinct_ids(w, s.last());
        }
    }
}

/// Filtering for matching rows commutes with taking the multiset: the
/// matching rows of a sequence are the matching rows of its multiset.
proof fn lemma_matching_to_ms(s: Seq<SnippetView>, q: Seq<char>)
    ensures
        matching_rows(s, q).to_multiset() == s.to_multiset().filter(match_pred(q)),
    decreases s.len(),
{
    broadcast use vstd::seq_lib::group_to_multiset_ensures;
    broadcast use vstd::multiset::group_multiset_axioms;

    reveal(Seq::filter);
    if s.len() == 0 {
        assert(matching_rows(s, q).to_multiset() =~= s.to_multiset().filter(match_pred(q)));
    } else {
        let pre = s.drop_last();
        let x = s.last();
        lemma_matching_to_ms(pre, q);
        assert(pre.push(x) =~= s);
        assert(s.to_multiset() == pre.push(x).to_multiset());
        assert(s.to_multiset() =~= pre.to_multiset().insert(x));
        if match_pred(q)(x) {
            assert(matching_rows(s, q) == matching_rows(pre, q).push(x));
            assert(matching_rows(s, q).to_multiset() =~= matching_rows(pre, q).to_multiset().insert(
                x,
            ));
            assert(matching_rows(s, q).to_multiset() =~= s.to_multiset().filter(match_pred(q)));
        } else {
            assert(matching_rows(s, q) == matching_rows(pre, q));
            assert(matching_rows(s, q).to_multiset() =~= s.to_multiset().filter(match_pred(q)));
        }
    }
}

/// Filtering for matching rows keeps the listing order sorted.
proof fn lemma_matching_sorted(s: Seq<SnippetView>, q: Seq<char>)
    requires
        sorted_listing(s),
    ensures
        sorted_listing(matching_rows(s, q)),
    decreases s.len(),
{
    reveal(Seq::filter);
    if s.len() == 0 {
    } else {
        let pre = s.drop_last();
        assert(forall|i: int| 0 <= i < pre.len() ==> pre[i] == s[i]);
        lemma_matching_sorted(pre, q);
        if match_pred(q)(s.last()) {
            let w = matching_rows(pre, q);
            assert(matching_rows(s, q) == w.push(s.last()));
            let t = w.push(s.last());
            assert forall|i: int, j: int|
                #![trigger t[i], t[j]]
                0 <= i < j < t.len() implies listed_no_later(t[i], t[j]) by {
                if j < w.len() {
                    assert(t[i] == w[i] && t[j] == w[j]);
                } else {
                    broadcast use Seq::lemma_filter_contains_rev;

                    assert(w.contains(w[i]));
                    assert(pre.contains(w[i]));
                    let m = choose|m: int| 0 <= m < pre.len() && pre[m] == w[i];
                    assert(s[m] == w[i]);
                    assert(listed_no_later(s[m], s[s.len() - 1]));
                }
            }
        } else {
            assert(matching_rows(s, q) == matching_rows(pre, q));
        }
    }
}

/// Appending an element whose id and command differ from every element keeps
/// rows distinct.
proof fn lemma_push_distinct_ids(s: Seq<SnippetView>, x: SnippetView)
    requires
        distinct_rows(s),
        forall|k: int| 0 <= k < s.len() ==> (#[trigger] s[k]).id != x.id && s[k].command
            != x.command,
    ensures
        distinct_rows(s.push(x)),
{
    let t = s.push(x);
    assert forall|i: int, j: int|
        #![trigger t[i], t[j]]
        0 <= i < j < t.len() implies t[i].id != t[j].id && t[i].command != t[j].command by {
        if j < s.len() {
            assert(t[i] == s[i] && t[j] == s[j]);
        } else {
            assert(t[j] == x && t[i] == s[i]);
        }
    }
}


/// Strict lexicographic order is irreflexive.
proof fn lemma_lex_irrefl(x: Seq<char>)
    ensures
        !lex_lt(x, x),
    decreases x.len(),
{
    if x.len() > 0 {
        lemma_lex_irrefl(x.drop_first());
    }
}

/// Strict lexicographic order is asymmetric.
proof fn lemma_lex_asym(x: Seq<char>, y: Seq<char>)
    requires
        lex_lt(x, y),
    ensures
        !lex_lt(y, x),
    decreases x.len(),
{
    if y.len() == 0 {
    } else if x.len() == 0 {
    } else if (x.first() as u32) < (y.first() as u32) {
    } else if (y.first() as u32) < (x.first() as u32) {
    } else {
        lemma_lex_asym(x.drop_first(), y.drop_first());
    }
}

/// Two rows each sorting no later than the other share their sort key.
proof fn lemma_listed_antisym(x: SnippetView, y: SnippetView)
    requires
        listed_no_later(x, y),
        listed_no_later(y, x),
    ensures
        x.created_at == y.created_at && x.id == y.id,
{
    lemma_lex_irrefl(x.created_at);
    lemma_lex_irrefl(y.created_at);
    if lex_lt(y.created_at, x.created_at) {
        lemma_lex_asym(y.created_at, x.created_at);
        assert(false);
    }
    if lex_lt(x.created_at, y.created_at) {
        lemma_lex_asym(x.created_at, y.created_at);
        assert(false);
    }
}

/// A reordering of distinct rows is itself distinct.
proof fn lemma_perm_distinct(a: Seq<SnippetView>, b: Seq<SnippetView>)
    requires
        distinct_rows(a),
        a.to_multiset() == b.to_multiset(),
    ensures
        distinct_rows(b),
{
    broadcast use vstd::seq_lib::group_to_multiset_ensures;
    broadcast use vstd::multiset::group_multiset_axioms;

    assert forall|i: int, j: int|
        0 <= i < a.len() && 0 <= j < a.len() && i != j implies a[i] != a[j] by {
        if i < j {
            assert(a[i].id != a[j].id);
        } else {
            assert(a[j].id != a[i].id);
        }
    }
    a.lemma_multiset_has_no_duplicates();
    b.lemma_multiset_has_no_duplicates_conv();
    assert forall|i: int, j: int|
        #![trigger b[i], b[j]]
        0 <= i < j < b.len() implies b[i].id != b[j].id && b[i].command != b[j].command by {
        assert(b[i] != b[j]);
        assert(b.contains(b[i]) && b.contains(b[j]));
        assert(a.to_multiset().contains(b[i]) && a.to_multiset().contains(b[j]));
        assert(a.contains(b[i]) && a.contains(b[j]));
        let k = choose|k: int| 0 <= k < a.len() && a[k] == b[i];
        let l = choose|l: int| 0 <= l < a.len() && a[l] == b[j];
        if k < l {
            assert(a[k].id != a[l].id && a[k].command != a[l].command);
        } else {
            assert(a[l].id != a[k].id && a[l].command != a[k].command);
        }
    }
}

/// Listing order is rigid: rows with distinct ids have exactly one
/// arrangement sorted in listing order, so two equally-sorted sequences with
/// the same rows are the same sequence. With `list`'s and `search`'s
/// contracts this pins both result sequences completely.
pub proof fn lemma_listing_order_rigid(a: Seq<SnippetView>, b: Seq<SnippetView>)
    requires
        distinct_rows(a),
        sorted_listing(a),
        sorted_listing(b),
        a.to_multiset() == b.to_multiset(),
    ensures
        a == b,
    decreases a.len(),
{
    broadcast use vstd::seq_lib::group_to_multiset_ensures;
    broadcast use vstd::multiset::group_multiset_axioms;

    assert(a.len() == a.to_multiset().len());
    assert(b.len() == b.to_multiset().len());
    if a.len() == 0 {
        assert(a =~= b);
    } else {
        assert(a.contains(a[0]));
        assert(b.to_multiset().contains(a[0]));
        assert(b.contains(a[0]));
        let m = choose|m: int| 0 <= m < b.len() && b[m] == a[0];
        assert(b.contains(b[0]));
        assert(a.to_multiset().contains(b[0]));
        assert(a.contains(b[0]));
        let n = choose|n: int| 0 <= n < a.len() && a[n] == b[0];
        assert(listed_no_later(a[0], b[0])) by {
            if n > 0 {
                assert(listed_no_later(a[0], a[n]));
            }
        }
        assert(listed_no_later(b[0], a[0])) by {
            if m > 0 {
                assert(listed_no_later(b[0], b[m]));
            }
        }
        lemma_listed_antisym(a[0], b[0]);
        assert(n == 0) by {
            if n > 0 {
                assert(a[0].id != a[n].id);
            }
        }
        assert(b[0] == a[0]);
        let a2 = a.drop_first();
        let b2 = b.drop_first();
        assert(a.remove(0) =~= a2);
        assert(b.remove(0) =~= b2);
        assert(a2.to_multiset() =~= b2.to_multiset()) by {
            assert(a.remove(0).to_multiset() =~= a.to_multiset().remove(a[0]));
            assert(b.remove(0).to_multiset() =~= b.to_multiset().remove(b[0]));
        }
        assert forall|i: int, j: int|
            #![trigger a2[i], a2[j]]
            0 <= i < j < a2.len() implies a2[i].id != a2[j].id && a2[i].command
            != a2[j].command by {
            assert(a2[i] == a[i + 1] && a2[j] == a[j + 1]);
        }
        assert forall|i: int, j: int|
            #![trigger a2[i], a2[j]]
            0 <= i < j < a2.len() implies listed_no_later(a2[i], a2[j]) by {
            assert(a2[i] == a[i + 1] && a2[j] == a[j + 1]);
        }
        assert forall|i: int, j: int|
            #![trigger b2[i], b2[j]]
            0 <= i < j < b2.len() implies listed_no_later(b2[i], b2[j]) by {
            assert(b2[i] == b[i + 1] && b2[j] == b[j + 1]);
        }
        lemma_listing_order_rigid(a2, b2);
        assert forall|i: int| 0 <= i < a.len() implies a[i] == b[i] by {
            if i > 0 {
                assert(a2[i - 1] == a[i]);
                assert(b2[i - 1] == b[i]);
            }
        }
        assert(a =~= b);
    }
}

/// What `search` returns is the listing filtered: a sequence sorted in
/// listing order holding exactly the rows matching the query equals the
/// listed sequence filtered to those rows, order preserved — so a
/// case-insensitive match of the query selects exactly its rows of `list`.
pub proof fn lemma_search_is_filtered_listing(
    rows: Seq<SnippetView>,
    listed: Seq<SnippetView>,
    found: Seq<SnippetView>,
    q: Seq<char>,
)
    requires
        distinct_rows(rows),
        sorted_listing(listed),
        listed.to_multiset() == rows.to_multiset(),
        sorted_listing(found),
        found.to_multiset() == matching_rows(rows, q).to_multiset(),
    ensures
        found == matching_rows(listed, q),
{
    lemma_perm_distinct(rows, listed);
    lemma_filter_distinct(listed, match_pred(q));
    lemma_matching_sorted(listed, q);
    lemma_matching_to_ms(listed, q);
    lemma_matching_to_ms(rows, q);
    lemma_listing_order_rigid(matching_rows(listed, q), found);
}

} // verus!
