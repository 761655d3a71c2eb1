//! Statement execution over the storage core. Parsing SQL text into the
//! [`Statement`] model is the front end's job; every decision made on a
//! parsed statement lives here.

use vstd::prelude::*;
use crate::catalog::{Catalog, ColumnDef, TableSchema};
use crate::error::TitanError;
use crate::blink::{pager_frame_mut, BLinkTree};
use crate::pager::Pager;

verus! {

/// What executing a statement produced: a plain message, or a result set.
#[derive(Debug, Clone)]
pub enum ExecutionResult {
    Message(String),
    ResultSet { columns: Vec<String>, rows: Vec<Vec<String>> },
}

/// `items` joined by `sep`.
pub open spec fn join_with(items: Seq<Seq<char>>, sep: Seq<char>) -> Seq<char>
    decreases items.len(),
{
    if items.len() == 0 {
        Seq::<char>::empty()
    } else if items.len() == 1 {
        items[0]
    } else {
        items[0] + sep + join_with(items.drop_first(), sep)
    }
}

/// A rule of `n` dashes.
pub open spec fn dashes(n: nat) -> Seq<char> {
    Seq::new(n, |i: int| '-')
}

/// The rows of a result set, one line each, columns joined by bars.
pub open spec fn render_rows(rows: Seq<Seq<Seq<char>>>) -> Seq<char>
    decreases rows.len(),
{
    if rows.len() == 0 {
        Seq::<char>::empty()
    } else {
        join_with(rows[0], " | "@) + "\n"@ + render_rows(rows.drop_first())
    }
}

/// The textual form of an execution result: a message verbatim; a result
/// set as a header line, a dashed rule ten dashes per column, and one line
/// per row.
pub open spec fn spec_render(r: ExecutionResult) -> Seq<char> {
    match r {
        ExecutionResult::Message(m) => m@,
        ExecutionResult::ResultSet { columns, rows } => join_with(columns.deep_view(), " | "@)
            + "\n"@ + dashes((columns@.len() * 10) as nat) + "\n"@ + render_rows(rows.deep_view()),
    }
}

proof fn lemma_join_snoc(items: Seq<Seq<char>>, sep: Seq<char>, x: Seq<char>)
    ensures
        join_with(items.push(x), sep) == if items.len() == 0 {
            x
        } else {
            join_with(items, sep) + sep + x
        },
    decreases items.len(),
{
    reveal_with_fuel(join_with, 3);
    if items.len() == 0 {
        assert(items.push(x)[0] == x);
        assert(join_with(items.push(x), sep) =~= x);
    } else if items.len() == 1 {
        assert(items.push(x)[0] == items[0]);
        assert(items.push(x).drop_first() =~= Seq::<Seq<char>>::empty().push(x));
        lemma_join_snoc(items.drop_first(), sep, x);
        assert(join_with(items.push(x), sep) =~= join_with(items, sep) + sep + x);
    } else {
        assert(items.push(x)[0] == items[0]);
        assert(items.push(x).drop_first() =~= items.drop_first().push(x));
        lemma_join_snoc(items.drop_first(), sep, x);
        assert(join_with(items.push(x), sep) =~= join_with(items, sep) + sep + x);
    }
}

proof fn lemma_rows_snoc(rows: Seq<Seq<Seq<char>>>, x: Seq<Seq<char>>)
    ensures
        render_rows(rows.push(x)) == render_rows(rows) + join_with(x, " | "@) + "\n"@,
    decreases rows.len(),
{
    reveal_with_fuel(render_rows, 3);
    if rows.len() == 0 {
        assert(rows.push(x)[0] == x);
        assert(rows.push(x).drop_first() =~= Seq::<Seq<Seq<char>>>::empty());
        assert(render_rows(rows.push(x)) =~= render_rows(rows) + join_with(x, " | "@) + "\n"@);
    } else {
        assert(rows.push(x)[0] == rows[0]);
        assert(rows.push(x).drop_first() =~= rows.drop_first().push(x));
        lemma_rows_snoc(rows.drop_first(), x);
        assert(render_rows(rows.push(x)) =~= render_rows(rows) + join_with(x, " | "@) + "\n"@);
    }
}

/// Joins strings with a separator.
fn join_strings(items: &Vec<String>, sep: &str) -> (r: String)
    ensures
        r@ == join_with(items.deep_view(), sep@),
{
    let mut r = String::new();
    let n = items.len();
    let mut i: usize = 0;
    while i < n
        invariant
            i <= n,
            n == items@.len(),
            r@ == join_with(items.deep_view().take(i as int), sep@),
        decreases n - i,
    {
        if i > 0 {
            r.append(sep);
        }
        r.append(items[i].as_str());
        proof {
            let dv = items.deep_view();
            lemma_join_snoc(dv.take(i as int), sep@, dv[i as int]);
            assert(dv.take(i + 1) =~= dv.take(i as int).push(dv[i as int]));
            assert(items@[i as int]@ == dv[i as int]);
        }
        i = i + 1;
    }
    proof {
        assert(items.deep_view().take(n as int) =~= items.deep_view());
    }
    r
}

/// A rule of `n` dashes.
fn dash_rule(n: usize) -> (r: String)
    ensures
        r@ == dashes(n as nat),
{
    let mut r = String::new();
    let mut i: usize = 0;
    proof {
        reveal_strlit("-");
        assert(r@ =~= dashes(0));
    }
    while i < n
        invariant
            i <= n,
            r@ == dashes(i as nat),
        decreases n - i,
    {
        r.append("-");
        proof {
            reveal_strlit("-");
            assert(r@ =~= dashes((i + 1) as nat));
        }
        i = i + 1;
    }
    r
}

impl ExecutionResult {
    /// The textual form of this result, exactly as [`spec_render`] states.
    pub fn render(&self) -> (r: String)
        requires
            self matches ExecutionResult::ResultSet { columns, .. } ==> columns@.len()
                <= 0x0fff_ffff,
        ensures
            r@ == spec_render(*self),
    {
        match self {
            ExecutionResult::Message(m) => m.clone(),
            ExecutionResult::ResultSet { columns, rows } => {
                let mut out = join_strings(columns, " | ");
                out.append("\n");
                let rule = dash_rule(columns.len() * 10);
                out.append(rule.as_str());
                out.append("\n");
                let ghost prefix = join_with(columns.deep_view(), " | "@) + "\n"@ + dashes(
                    (columns@.len() * 10) as nat,
                ) + "\n"@;
                proof {
                    assert(out@ =~= prefix + render_rows(rows.deep_view().take(0)));
                }
                let n = rows.len();
                let mut i: usize = 0;
                while i < n
                    invariant
                        i <= n,
                        n == rows@.len(),
                        out@ == prefix + render_rows(rows.deep_view().take(i as int)),
                    decreases n - i,
                {
                    let line = join_strings(&rows[i], " | ");
                    out.append(line.as_str());
                    out.append("\n");
                    proof {
                        let dv = rows.deep_view();
                        lemma_rows_snoc(dv.take(i as int), dv[i as int]);
                        assert(dv.take(i + 1) =~= dv.take(i as int).push(dv[i as int]));
                        assert(rows@[i as int].deep_view() == dv[i as int]);
                        assert(out@ =~= prefix + render_rows(dv.take(i + 1)));
                    }
                    i = i + 1;
                }
                proof {
                    assert(rows.deep_view().take(n as int) =~= rows.deep_view());
                }
                out
            },
        }
    }
}


/// How executing one statement relates the catalog and page pool before it
/// to the catalog, pool and result after it, variant by variant.
pub open spec fn stmt_effect(
    cat0: Catalog,
    p0: Pager,
    statement: Statement,
    cat1: Catalog,
    p1: Pager,
    r: Result<ExecutionResult, TitanError>,
) -> bool {
    &&& p1.spec_total_pages() <= p0.spec_total_pages() + 1
    &&& (statement matches Statement::CreateTable { name, columns } ==> (if cat0.spec_contains(
        name@,
    ) {
        r == Err::<ExecutionResult, TitanError>(TitanError::Io) && cat1 == cat0 && p1 == p0
    } else {
        &&& (r matches Ok(res) && res matches ExecutionResult::Message(m) && m@ == "Table "@
            + name@ + " created."@)
        &&& cat1.tables@ == cat0.tables@.push(
            (TableSchema { name, columns, root_page_id: p0.spec_total_pages() }),
        )
        &&& p1.spec_total_pages() == p0.spec_total_pages() + 1
    }))
    &&& (statement matches Statement::Insert { table } ==> p1 == p0 && cat1 == cat0 && (
    if cat0.spec_contains(table@) {
        r matches Ok(res) && res matches ExecutionResult::Message(m) && m@ == "Inserted into "@
            + table@ + "."@
    } else {
        r == Err::<ExecutionResult, TitanError>(TitanError::PageNotFound(0))
    }))
    &&& (statement matches Statement::AlterTable { name } ==> p1 == p0 && cat1 == cat0 && (
    r matches Ok(res) && res matches ExecutionResult::Message(m) && m@ == "Table "@ + name@
        + " altered."@))
    &&& (statement matches Statement::Drop { description } ==> p1 == p0 && cat1 == cat0 && (
    r matches Ok(res) && res matches ExecutionResult::Message(m) && m@ == description@
        + " dropped."@))
    &&& (statement is Delete ==> p1 == p0 && cat1 == cat0 && (r matches Ok(res) && res
        matches ExecutionResult::Message(m) && m@ == "Delete statement executed."@))
    &&& (statement matches Statement::Update { table } ==> p1 == p0 && cat1 == cat0 && (
    r matches Ok(res) && res matches ExecutionResult::Message(m) && m@ == "Updated "@ + table@
        + "."@))
    &&& (statement matches Statement::Other { summary } ==> p1 == p0 && cat1 == cat0 && (
    r matches Ok(res) && res matches ExecutionResult::Message(m) && m@ == "Statement "@ + summary@
        + " parsed but execution not yet implemented."@))
    &&& (statement matches Statement::Query { select_table } ==> p1 == p0 && cat1 == cat0 && (
    r matches Ok(res) && query_result(select_table, res)))
}

/// How running a statement list relates start state to end state and
/// result: statements run in order; the first failure is returned and
/// nothing further runs; when all succeed the last statement's result is
/// returned, or `acc` for an empty list.
pub open spec fn execute_effect(
    cat0: Catalog,
    p0: Pager,
    stmts: Seq<Statement>,
    cat1: Catalog,
    p1: Pager,
    r: Result<ExecutionResult, TitanError>,
    acc: ExecutionResult,
) -> bool
    decreases stmts.len(),
{
    if stmts.len() == 0 {
        cat1 == cat0 && p1 == p0 && r == Ok::<ExecutionResult, TitanError>(acc)
    } else {
        exists|catm: Catalog, pm: Pager, r0: Result<ExecutionResult, TitanError>|
            #![auto]
            stmt_effect(cat0, p0, stmts[0], catm, pm, r0) && (match r0 {
                Err(e) => cat1 == catm && p1 == pm && r == Err::<ExecutionResult, TitanError>(e),
                Ok(res0) => execute_effect(catm, pm, stmts.drop_first(), cat1, p1, r, res0),
            })
    }
}

/// A parsed SQL statement, reduced to what execution reads of it. The
/// front end builds these from parser output.
pub enum Statement {
    CreateTable { name: String, columns: Vec<ColumnDef> },
    Insert { table: String },
    Query { select_table: Option<String> },
    AlterTable { name: String },
    Drop { description: String },
    Delete,
    Update { table: String },
    Other { summary: String },
}

/// Executes statements against the catalog and the page pool.
pub struct Executor {
    catalog: Catalog,
}

impl Executor {
    /// The catalog as the executor sees it.
    pub closed spec fn spec_catalog(self) -> Catalog {
        self.catalog
    }

    /// An executor over an existing catalog.
    pub fn new(catalog: Catalog) -> (e: Executor)
        ensures
            e.spec_catalog() == catalog,
    {
        Executor { catalog }
    }

    /// A read-only view of the catalog.
    pub fn catalog(&self) -> (c: &Catalog)
        ensures
            *c == self.spec_catalog(),
    {
        &self.catalog
    }

    /// Runs a list of statements in order and reports the result of the
    /// last one, or a fixed message when the list is empty. Stops at the
    /// first failing statement, whose error it reports unchanged.
    pub fn execute(&mut self, pager: &mut Pager, statements: Vec<Statement>) -> (r: Result<
        ExecutionResult,
        TitanError,
    >)
        requires
            old(self).spec_catalog().wf(),
            old(pager).wf(),
            old(pager).spec_total_pages() + statements@.len() <= 0xffff_ffff_ffff_ffff,
        ensures
            final(self).spec_catalog().wf(),
            final(pager).wf(),
            statements@.len() == 0 ==> (r matches Ok(res) && res matches ExecutionResult::Message(
                m,
            ) && m@ == "No statements executed"@),
            exists|m0: ExecutionResult|
                (#[trigger] execute_effect(
                    old(self).spec_catalog(),
                    *old(pager),
                    statements@,
                    final(self).spec_catalog(),
                    *final(pager),
                    r,
                    m0,
                )) && (m0 matches ExecutionResult::Message(s) && s@ == "No statements executed"@),
    {
        let mut last = ExecutionResult::Message(String::from_str("No statements executed"));
        let ghost m0 = last;
        let n = statements.len();
        let mut rest = statements;
        let mut i: usize = 0;
        #[verifier::loop_isolation(false)]
        while i < n
            invariant
                i <= n,
                rest@.len() == n - i,
                self.spec_catalog().wf(),
                pager.wf(),
                pager.spec_total_pages() <= old(pager).spec_total_pages() + i,
                i == 0 ==> last == m0,
                forall|c2: Catalog, p2: Pager, r2: Result<ExecutionResult, TitanError>|
                    #![auto]
                    execute_effect(self.spec_catalog(), *pager, rest@, c2, p2, r2, last)
                        ==> execute_effect(
                        old(self).spec_catalog(),
                        *old(pager),
                        statements@,
                        c2,
                        p2,
                        r2,
                        m0,
                    ),
            decreases n - i,
        {
            let ghost ci = self.spec_catalog();
            let ghost pi = *pager;
            let ghost restv = rest@;
            let ghost lastv = last;
            let stmt = rest.remove(0);
            proof {
                assert(rest@ =~= restv.drop_first());
            }
            last = match self.execute_statement(pager, stmt) {
                Ok(res) => res,
                Err(e) => {
                    proof {
                        assert(stmt_effect(
                            ci,
                            pi,
                            restv[0],
                            self.spec_catalog(),
                            *pager,
                            Err::<ExecutionResult, TitanError>(e),
                        ));
                        assert(execute_effect(
                            ci,
                            pi,
                            restv,
                            self.spec_catalog(),
                            *pager,
                            Err::<ExecutionResult, TitanError>(e),
                            lastv,
                        ));
                    }
                    return Err(e);
                },
            };
            proof {
                assert forall|c2: Catalog, p2: Pager, r2: Result<ExecutionResult, TitanError>|
                    #![auto]
                    execute_effect(self.spec_catalog(), *pager, rest@, c2, p2, r2, last)
                        implies execute_effect(ci, pi, restv, c2, p2, r2, lastv) by {
                    assert(stmt_effect(
                        ci,
                        pi,
                        restv[0],
                        self.spec_catalog(),
                        *pager,
                        Ok::<ExecutionResult, TitanError>(last),
                    ));
                }
            }
            i = i + 1;
        }
        proof {
            assert(rest@ =~= Seq::<Statement>::empty());
            assert(execute_effect(
                self.spec_catalog(),
                *pager,
                rest@,
                self.spec_catalog(),
                *pager,
                Ok::<ExecutionResult, TitanError>(last),
                last,
            ));
        }
        Ok(last)
    }

    /// Executes one statement. Creating a table allocates a fresh index
    /// root and records its page id in the catalog; creating a table whose
    /// name is taken fails. The remaining statement kinds are acknowledged
    /// with fixed messages, and a plain select reports a placeholder result
    /// set, pending a real table scan.
    pub fn execute_statement(&mut self, pager: &mut Pager, statement: Statement) -> (r: Result<
        ExecutionResult,
        TitanError,
    >)
        requires
            old(self).spec_catalog().wf(),
            old(pager).wf(),
            old(pager).spec_total_pages() < 0xffff_ffff_ffff_ffff,
        ensures
            final(self).spec_catalog().wf(),
            pager_frame_mut(*old(pager), *final(pager)),
            final(pager).spec_total_pages() <= old(pager).spec_total_pages() + 1,
            stmt_effect(
                old(self).spec_catalog(),
                *old(pager),
                statement,
                final(self).spec_catalog(),
                *final(pager),
                r,
            ),
    {
        match statement {
            Statement::CreateTable { name, columns } => {
                if self.catalog.find_table(&name).is_some() {
                    return Err(TitanError::Io);
                }
                let tree = match BLinkTree::new(pager) {
                    Ok(t) => t,
                    Err(e) => {
                        return Err(e);
                    },
                };
                let root_page_id = tree.root_id();
                let mut m = String::from_str("Table ");
                m.append(name.as_str());
                m.append(" created.");
                self.catalog.add_table(TableSchema { name, columns, root_page_id });
                Ok(ExecutionResult::Message(m))
            },
            Statement::Insert { table } => {
                match self.catalog.find_table(&table) {
                    Some(_) => {
                        let mut m = String::from_str("Inserted into ");
                        m.append(table.as_str());
                        m.append(".");
                        Ok(ExecutionResult::Message(m))
                    },
                    None => Err(TitanError::PageNotFound(0)),
                }
            },
            Statement::Query { select_table } => Ok(Self::execute_query(select_table)),
            Statement::AlterTable { name } => {
                let mut m = String::from_str("Table ");
                m.append(name.as_str());
                m.append(" altered.");
                Ok(ExecutionResult::Message(m))
            },
            Statement::Drop { description } => {
                let mut m = description;
                m.append(" dropped.");
                Ok(ExecutionResult::Message(m))
            },
            Statement::Delete => Ok(
                ExecutionResult::Message(String::from_str("Delete statement executed.")),
            ),
            Statement::Update { table } => {
                let mut m = String::from_str("Updated ");
                m.append(table.as_str());
                m.append(".");
                Ok(ExecutionResult::Message(m))
            },
            Statement::Other { summary } => {
                let mut m = String::from_str("Statement ");
                m.append(summary.as_str());
                m.append(" parsed but execution not yet implemented.");
                Ok(ExecutionResult::Message(m))
            },
        }
    }

    /// The placeholder answer to a query: a fixed demonstration result set
    /// for a plain select, pending a real table scan; a notice otherwise.
    fn execute_query(select_table: Option<String>) -> (res: ExecutionResult)
        ensures
            query_result(select_table, res),
    {
        match select_table {
            Some(_) => {
                let mut columns: Vec<String> = Vec::new();
                columns.push(String::from_str("id"));
                columns.push(String::from_str("name"));
                columns.push(String::from_str("age"));
                let mut row1: Vec<String> = Vec::new();
                row1.push(String::from_str("1"));
                row1.push(String::from_str("Alice"));
                row1.push(String::from_str("30"));
                let mut row2: Vec<String> = Vec::new();
                row2.push(String::from_str("2"));
                row2.push(String::from_str("Bob"));
                row2.push(String::from_str("25"));
                let mut rows: Vec<Vec<String>> = Vec::new();
                rows.push(row1);
                rows.push(row2);
                proof {
                    assert(columns.deep_view() =~~= seq!["id"@, "name"@, "age"@]);
                    assert(rows.deep_view() =~~= seq![
                        seq!["1"@, "Alice"@, "30"@],
                        seq!["2"@, "Bob"@, "25"@],
                    ]);
                }
                ExecutionResult::ResultSet { columns, rows }
            },
            None => ExecutionResult::Message(String::from_str("Complex query not implemented.")),
        }
    }
}

/// What a query statement reports: the placeholder result set for a plain
/// select, a notice for anything else.
pub open spec fn query_result(select_table: Option<String>, res: ExecutionResult) -> bool {
    match select_table {
        Some(_) => res matches ExecutionResult::ResultSet { columns, rows } && columns.deep_view()
            =~= seq!["id"@, "name"@, "age"@] && rows.deep_view() =~= seq![
            seq!["1"@, "Alice"@, "30"@],
            seq!["2"@, "Bob"@, "25"@],
        ],
        None => res matches ExecutionResult::Message(m) && m@ == "Complex query not implemented."@,
    }
}

} // verus!
