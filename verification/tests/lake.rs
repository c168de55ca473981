//! Batches run against an in-memory lake.
//!
//! The lake below understands just the statements that the library builds, so
//! these tests run those statements for what they do to tables.

use std::collections::HashMap;

use ducklake_batches::backlog::{
    split_tracked_mutations, DuckLakeStreamingBatchConfig, TrackedTableMutation,
    TrackedTruncateEvent,
};
use ducklake_batches::batch_kind::DuckLakeTableBatchKind;
use ducklake_batches::batches::{
    prepare_copy_complete_table_batch, prepare_copy_table_batch, prepare_truncate_table_batch,
    replicated_column_names, PreparedDuckLakeCopyBatch, PreparedDuckLakeTableBatch,
    PreparedDuckLakeTableBatchAction,
};
use ducklake_batches::copy::{
    AppendStart, CopyFlush, DuckLakeCopyAccumulator, FlushAction, FlushPhase,
};
use ducklake_batches::data::{
    Cell, OldTableRow, PartialTableRow, Scalar, TableRow, TextKind, UpdatedTableRow,
};
use ducklake_batches::diagnostics::QUERY_ERROR_DETAILS;
use ducklake_batches::error::{ErrorKind, EtlError};
use ducklake_batches::hooks::{
    arm_fail_after_atomic_batch_commit_once_for_tests,
    arm_fail_after_copy_batch_commit_once_for_tests, ducklake_staging_table_creations_for_tests,
    maybe_fail_after_committed_batch_for_tests, reset_ducklake_test_hooks, DuckLakeTestHooks,
};
use ducklake_batches::identity::has_canonical_identity;
use ducklake_batches::key_set::{DeleteKeySet, KeyComponent};
use ducklake_batches::literal::{
    cell_to_sql_literal_ref, prepare_copy_rows, prepare_rows, prepared_rows_count, PreparedRows,
};
use ducklake_batches::mutation::{PreparedTableMutation, TableMutation};
use ducklake_batches::mutation_run::{ChunkStep, MutationRun};
use ducklake_batches::normalize::prepare_table_mutations;
use ducklake_batches::ordered::prepare_ordered_table_mutations;
use ducklake_batches::partial_update::{PartialUpdateRecoveryRequest, RecoveredPartialRows};
use ducklake_batches::recovery_plan::plan_partial_update_recovery;
use ducklake_batches::recovery_read::{PartialUpdateRecoveryOutcome, RecoveryRead};
use ducklake_batches::replay::{
    progress_from_rows, BatchReplay, ReplayPhase, TableStreamingProgress,
};
use ducklake_batches::retry::{commit_retry_policy, progress_for_attempt, RetryLoop, RetryStep};
use ducklake_batches::schema::{
    ColumnSchema, ColumnType, DuckLakeTableName, ReplicatedTableSchema, TypeKind,
};
use ducklake_batches::sequence::{EventSequenceKey, PgLsn};
use ducklake_batches::staging::{ReusableStagingTable, StagingLoad};
use ducklake_batches::statements::{
    advance_helper_table_step, build_column_query, build_marker_query, build_progress_queries,
    first_helper_table_step, helper_table_statement, progress_helper_tables, HelperTable,
    HelperTableStep, Statement, APPLIED_BATCHES_TABLE, LEGACY_REPLAY_EPOCH, REPLAY_EPOCH_COLUMN,
};
use ducklake_batches::stored_value::{StoredScalar, StoredValue};
use ducklake_batches::streaming_progress::{StreamingProgress, StreamingProgressTable};
use ducklake_batches::transaction::{
    build_batch_steps, build_begin_statement, build_commit_statement, finish_batch, BatchStep,
    BatchTransaction, TransactionAction, ROLLBACK_SQL,
};
use rand::{Rng, SeedableRng};

/// A value as its SQL literal.
type Value = Option<String>;

#[derive(Clone, Debug, PartialEq)]
enum Token {
    Word(String),
    Name(String),
    Literal(String),
    Symbol(String),
}

fn tokens(sql: &str) -> Vec<Token> {
    let chars: Vec<char> = sql.chars().collect();
    let mut found = Vec::new();
    let mut i = 0;
    while i < chars.len() {
        let c = chars[i];
        let escaped = c == 'E' && chars.get(i + 1) == Some(&'\'');
        if c.is_whitespace() {
            i += 1;
        } else if c == '\'' || escaped {
            let start = i;
            i += if escaped { 2 } else { 1 };
            loop {
                if chars[i] == '\'' && chars.get(i + 1) == Some(&'\'') {
                    i += 2;
                } else if escaped && chars[i] == '\\' {
                    i += 2;
                } else if chars[i] == '\'' {
                    i += 1;
                    break;
                } else {
                    i += 1;
                }
            }
            found.push(Token::Literal(chars[start..i].iter().collect()));
        } else if c == '"' {
            let mut name = String::new();
            i += 1;
            while chars[i] != '"' || chars.get(i + 1) == Some(&'"') {
                if chars[i] == '"' {
                    i += 1;
                }
                name.push(chars[i]);
                i += 1;
            }
            i += 1;
            found.push(Token::Name(name));
        } else if c.is_ascii_digit() || (c == '-' && chars[i + 1].is_ascii_digit()) {
            let start = i;
            i += 1;
            while i < chars.len() && chars[i].is_ascii_digit() {
                i += 1;
            }
            found.push(Token::Literal(chars[start..i].iter().collect()));
        } else if c.is_ascii_alphabetic() || c == '_' {
            let start = i;
            while i < chars.len() && (chars[i].is_ascii_alphanumeric() || chars[i] == '_') {
                i += 1;
            }
            let word: String = chars[start..i].iter().collect();
            found.push(Token::Word(word.to_lowercase()));
        } else if (c == '>' || c == '<' || c == '=') && chars.get(i + 1) == Some(&'=') {
            found.push(Token::Symbol(format!("{c}=")));
            i += 2;
        } else if c == '=' && chars.get(i + 1) == Some(&'>') {
            found.push(Token::Symbol("=>".to_owned()));
            i += 2;
        } else {
            found.push(Token::Symbol(c.to_string()));
            i += 1;
        }
    }
    found
}

#[derive(Clone, Debug)]
enum Operand {
    Target(String),
    Key(String),
    Coalesce(String, Value),
    Value(Value),
}

#[derive(Clone, Debug)]
enum Term {
    Compare(Operand, String, Operand),
    SameAs(Operand, Operand),
    IsNull(Operand),
}

struct Parser {
    tokens: Vec<Token>,
    at: usize,
}

impl Parser {
    fn new(sql: &str) -> Parser {
        Parser { tokens: tokens(sql), at: 0 }
    }

    fn peek_word(&self, word: &str) -> bool {
        self.tokens.get(self.at) == Some(&Token::Word(word.to_owned()))
    }

    fn peek_symbol(&self, symbol: &str) -> bool {
        self.tokens.get(self.at) == Some(&Token::Symbol(symbol.to_owned()))
    }

    fn eat_word(&mut self, word: &str) -> bool {
        let found = self.peek_word(word);
        if found {
            self.at += 1;
        }
        found
    }

    fn eat_symbol(&mut self, symbol: &str) -> bool {
        let found = self.peek_symbol(symbol);
        if found {
            self.at += 1;
        }
        found
    }

    fn words(&mut self, words: &str) {
        for word in words.split(' ') {
            assert!(self.eat_word(word), "expected {word} at {:?}", &self.tokens[self.at..]);
        }
    }

    fn symbol(&mut self, symbol: &str) {
        assert!(self.eat_symbol(symbol), "expected {symbol} at {:?}", &self.tokens[self.at..]);
    }

    fn identifier(&mut self) -> String {
        let found = match &self.tokens[self.at] {
            Token::Word(name) | Token::Name(name) => name.clone(),
            other => panic!("expected a name at {other:?}"),
        };
        self.at += 1;
        found
    }

    fn table(&mut self) -> String {
        let mut parts = vec![self.identifier()];
        while self.eat_symbol(".") {
            parts.push(self.identifier());
        }
        if parts.len() > 1 && parts[0] == "lake" {
            parts.remove(0);
        }
        parts.join(".")
    }

    fn names(&mut self) -> Vec<String> {
        let mut names = vec![self.identifier()];
        while self.eat_symbol(",") {
            names.push(self.identifier());
        }
        names
    }

    fn value(&mut self) -> Value {
        let token = self.tokens[self.at].clone();
        self.at += 1;
        match token {
            Token::Literal(text) => Some(text),
            Token::Word(word) if word == "null" => None,
            Token::Word(word) if word == "cast" => {
                self.symbol("(");
                let inner = self.value();
                self.words("as");
                let kind = self.identifier();
                self.symbol(")");
                inner.map(|inner| format!("CAST({inner} AS {})", kind.to_uppercase()))
            }
            Token::Word(word) => Some(word),
            Token::Symbol(symbol) if symbol == "[" => {
                let mut elements = Vec::new();
                while !self.eat_symbol("]") {
                    elements.push(self.value().unwrap_or_else(|| "NULL".to_owned()));
                    self.eat_symbol(",");
                }
                Some(format!("[{}]", elements.join(", ")))
            }
            other => panic!("expected a value at {other:?}"),
        }
    }

    fn tuples(&mut self) -> Vec<Vec<Value>> {
        let mut rows = Vec::new();
        loop {
            self.symbol("(");
            let mut values = vec![self.value()];
            while self.eat_symbol(",") {
                values.push(self.value());
            }
            self.symbol(")");
            rows.push(values);
            if !self.eat_symbol(",") {
                return rows;
            }
        }
    }

    fn operand(&mut self) -> Operand {
        if self.eat_word("coalesce") {
            self.symbol("(");
            let column = self.identifier();
            self.symbol(",");
            let fallback = self.value();
            self.symbol(")");
            return Operand::Coalesce(column, fallback);
        }
        let qualified = matches!(
            self.tokens.get(self.at + 1),
            Some(Token::Symbol(symbol)) if symbol == "."
        );
        if qualified {
            let owner = self.identifier();
            self.symbol(".");
            let column = self.identifier();
            return if owner == "cdc_keys" {
                Operand::Key(column)
            } else {
                Operand::Target(column)
            };
        }
        match &self.tokens[self.at] {
            Token::Name(_) => Operand::Target(self.identifier()),
            Token::Word(word) if !["null", "cast", "true", "false"].contains(&word.as_str()) => {
                Operand::Target(self.identifier())
            }
            _ => Operand::Value(self.value()),
        }
    }

    fn conjunction(&mut self) -> Vec<Term> {
        let mut terms = Vec::new();
        loop {
            let left = self.operand();
            if self.eat_word("is") {
                if self.eat_word("null") {
                    terms.push(Term::IsNull(left));
                } else {
                    self.words("not distinct from");
                    let right = self.operand();
                    terms.push(Term::SameAs(left, right));
                }
            } else {
                let operator = match &self.tokens[self.at] {
                    Token::Symbol(symbol) => symbol.clone(),
                    other => panic!("expected an operator at {other:?}"),
                };
                self.at += 1;
                let right = self.operand();
                terms.push(Term::Compare(left, operator, right));
            }
            if !self.eat_word("and") {
                return terms;
            }
        }
    }

    fn disjunction(&mut self) -> Vec<Vec<Term>> {
        if !self.peek_symbol("(") {
            return vec![self.conjunction()];
        }
        let mut branches = Vec::new();
        loop {
            self.symbol("(");
            branches.push(self.conjunction());
            self.symbol(")");
            if !self.eat_word("or") {
                return branches;
            }
        }
    }
}

#[derive(Clone, Debug, PartialEq)]
struct Table {
    columns: Vec<(String, String)>,
    rows: Vec<Vec<Value>>,
}

impl Table {
    fn position(&self, column: &str) -> Result<usize, String> {
        self.columns
            .iter()
            .position(|(name, _)| name == column)
            .ok_or_else(|| format!("Binder Error: no column {column}"))
    }

    fn accept(&self, row: &[Value]) -> Result<(), String> {
        if row.len() != self.columns.len() {
            return Err("Binder Error: wrong number of values".to_owned());
        }
        for ((_, kind), value) in self.columns.iter().zip(row) {
            let numeric = ["integer", "ubigint"].contains(&kind.as_str());
            if let (true, Some(value)) = (numeric, value) {
                if value.parse::<i128>().is_err() {
                    return Err(format!("Conversion Error: {value} is no {kind}"));
                }
            }
        }
        Ok(())
    }

    fn resolve(
        &self,
        operand: &Operand,
        row: &[Value],
        keys: &[String],
        key: &[Value],
    ) -> Result<Value, String> {
        Ok(match operand {
            Operand::Target(column) => row[self.position(column)?].clone(),
            Operand::Key(column) => {
                key[keys.iter().position(|name| name == column).unwrap()].clone()
            }
            Operand::Coalesce(column, fallback) => {
                row[self.position(column)?].clone().or_else(|| fallback.clone())
            }
            Operand::Value(value) => value.clone(),
        })
    }

    fn holds(
        &self,
        terms: &[Term],
        row: &[Value],
        keys: &[String],
        key: &[Value],
    ) -> Result<bool, String> {
        for term in terms {
            let holds = match term {
                Term::IsNull(operand) => self.resolve(operand, row, keys, key)?.is_none(),
                Term::SameAs(left, right) => {
                    self.resolve(left, row, keys, key)? == self.resolve(right, row, keys, key)?
                }
                Term::Compare(left, operator, right) => {
                    let left = self.resolve(left, row, keys, key)?;
                    let right = self.resolve(right, row, keys, key)?;
                    match (left, right) {
                        (Some(left), Some(right)) => {
                            let order = match (left.parse::<i128>(), right.parse::<i128>()) {
                                (Ok(left), Ok(right)) => left.cmp(&right),
                                _ => left.cmp(&right),
                            };
                            match operator.as_str() {
                                "=" => order.is_eq(),
                                ">=" => order.is_ge(),
                                "<=" => order.is_le(),
                                other => panic!("operator {other}"),
                            }
                        }
                        _ => false,
                    }
                }
            };
            if !holds {
                return Ok(false);
            }
        }
        Ok(true)
    }
}

/// An in-memory lake with one connection.
struct Lake {
    tables: HashMap<String, Table>,
    before_transaction: Option<HashMap<String, Table>>,
    /// Where streaming batches record their progress.
    progress: StreamingProgressTable,
    /// A statement that starts with this text fails.
    failing: Option<String>,
    executed: Vec<String>,
}

impl Lake {
    fn new() -> Lake {
        Lake {
            tables: HashMap::new(),
            before_transaction: None,
            progress: StreamingProgressTable::default(),
            failing: None,
            executed: Vec::new(),
        }
    }

    fn create(&mut self, name: &str, columns: &[(&str, &str)]) {
        self.tables.insert(
            name.to_owned(),
            Table {
                columns: columns.iter().map(|(n, t)| (n.to_string(), t.to_string())).collect(),
                rows: Vec::new(),
            },
        );
    }

    fn with_helpers() -> Lake {
        let mut lake = Lake::new();
        lake.ensure_helper(HelperTable::AppliedBatches).unwrap();
        lake.record_into(StreamingProgressTable::default());
        lake
    }

    /// Records progress into a table from here on.
    fn record_into(&mut self, progress: StreamingProgressTable) {
        for table in progress_helper_tables(&progress) {
            self.ensure_helper(table).unwrap();
        }
        self.progress = progress;
    }

    /// Runs the steps that ensure a helper table exists.
    fn ensure_helper(&mut self, table: HelperTable) -> Result<(), EtlError> {
        let mut step = first_helper_table_step(false);
        while step != HelperTableStep::Done {
            let statement = helper_table_statement(&table, step).unwrap();
            let rows = self.run(&statement)?;
            step = advance_helper_table_step(step, !rows.is_empty());
        }
        assert!(helper_table_statement(&table, step).is_none());
        Ok(())
    }

    fn table(&self, name: &str) -> Result<&Table, String> {
        self.tables.get(name).ok_or_else(|| format!("Catalog Error: no table {name}"))
    }

    fn table_mut(&mut self, name: &str) -> Result<&mut Table, String> {
        self.tables.get_mut(name).ok_or_else(|| format!("Catalog Error: no table {name}"))
    }

    fn run(&mut self, statement: &Statement) -> Result<Vec<Vec<Value>>, EtlError> {
        self.execute(statement.sql.as_str())
            .map_err(|error| statement.failed(error.as_str(), QUERY_ERROR_DETAILS))
    }

    fn execute(&mut self, sql: &str) -> Result<Vec<Vec<Value>>, String> {
        self.executed.push(sql.to_owned());
        if self.failing.as_ref().is_some_and(|text| sql.starts_with(text.as_str())) {
            return Err("IO Error: injected".to_owned());
        }
        let mut parser = Parser::new(sql);
        let first = parser.identifier();
        match first.as_str() {
            "begin" => self.before_transaction = Some(self.tables.clone()),
            "commit" => self.before_transaction = None,
            "rollback" => self.tables = self.before_transaction.take().expect("a transaction"),
            "call" => {}
            "create" => self.execute_create(&mut parser)?,
            "alter" => {
                parser.words("table");
                let name = parser.table();
                parser.words("add column");
                let column = parser.identifier();
                let kind = parser.identifier();
                let table = self.table_mut(&name)?;
                table.columns.push((column, kind));
                for row in table.rows.iter_mut() {
                    row.push(None);
                }
            }
            "truncate" => {
                parser.words("table");
                let name = parser.table();
                self.table_mut(&name)?.rows.clear();
            }
            "drop" => {
                parser.words("table if exists");
                let name = parser.table();
                self.tables.remove(&name);
            }
            "insert" => self.execute_insert(&mut parser)?,
            "delete" => self.execute_delete(&mut parser)?,
            "update" => self.execute_update(&mut parser)?,
            "select" => return self.execute_select(&mut parser),
            other => panic!("statement {other}"),
        }
        Ok(Vec::new())
    }

    fn execute_create(&mut self, parser: &mut Parser) -> Result<(), String> {
        if parser.eat_word("or") {
            parser.words("replace temp table");
            let name = parser.table();
            parser.words("as select");
            let columns = parser.names();
            parser.words("from");
            let source = self.table(&parser.table())?.clone();
            let mut shaped = Vec::new();
            for column in columns {
                shaped.push(source.columns[source.position(&column)?].clone());
            }
            self.tables.insert(name, Table { columns: shaped, rows: Vec::new() });
            return Ok(());
        }
        parser.words("table if not exists");
        let name = parser.table();
        parser.symbol("(");
        let mut columns = Vec::new();
        loop {
            let column = parser.identifier();
            let kind = parser.identifier();
            if parser.eat_word("not") {
                parser.words("null");
            }
            columns.push((column, kind));
            if !parser.eat_symbol(",") {
                break;
            }
        }
        self.tables.entry(name).or_insert(Table { columns, rows: Vec::new() });
        Ok(())
    }

    fn execute_insert(&mut self, parser: &mut Parser) -> Result<(), String> {
        parser.words("into");
        let name = parser.table();
        let mut columns = Vec::new();
        if parser.eat_symbol("(") {
            columns = parser.names();
            parser.symbol(")");
        }
        let rows = if parser.eat_word("values") {
            parser.tuples()
        } else {
            parser.words("select");
            let picked = parser.names();
            parser.words("from");
            let source = self.table(&parser.table())?;
            let mut positions = Vec::new();
            for column in &picked {
                positions.push(source.position(column)?);
            }
            source
                .rows
                .iter()
                .map(|row| positions.iter().map(|p| row[*p].clone()).collect())
                .collect()
        };
        for row in rows {
            self.insert_row(&name, &columns, row)?;
        }
        Ok(())
    }

    fn insert_row(&mut self, name: &str, columns: &[String], row: Vec<Value>) -> Result<(), String> {
        let table = self.table_mut(name)?;
        let mut complete = vec![None; table.columns.len()];
        if columns.is_empty() {
            complete = row;
        } else {
            for (column, value) in columns.iter().zip(row) {
                complete[table.position(column)?] = value;
            }
        }
        table.accept(&complete)?;
        table.rows.push(complete);
        Ok(())
    }

    fn key_relation(parser: &mut Parser) -> (Vec<Vec<Value>>, Vec<String>) {
        parser.symbol("(");
        parser.words("values");
        let keys = parser.tuples();
        parser.symbol(")");
        parser.words("as cdc_keys");
        parser.symbol("(");
        let names = parser.names();
        parser.symbol(")");
        (keys, names)
    }

    fn execute_delete(&mut self, parser: &mut Parser) -> Result<(), String> {
        parser.words("from");
        let name = parser.table();
        let mut keys = vec![Vec::new()];
        let mut names = Vec::new();
        if parser.eat_word("as") {
            parser.words("cdc_target using");
            (keys, names) = Lake::key_relation(parser);
        }
        parser.words("where");
        let branches = parser.disjunction();
        let table = self.table_mut(&name)?;
        let mut kept = Vec::new();
        for row in &table.rows {
            let mut selected = false;
            for key in &keys {
                for branch in &branches {
                    selected = selected || table.holds(branch, row, &names, key)?;
                }
            }
            if !selected {
                kept.push(row.clone());
            }
        }
        table.rows = kept;
        Ok(())
    }

    fn execute_update(&mut self, parser: &mut Parser) -> Result<(), String> {
        let name = parser.table();
        parser.words("set");
        let mut assignments = Vec::new();
        loop {
            let column = parser.identifier();
            parser.symbol("=");
            assignments.push((column, parser.value()));
            if !parser.eat_symbol(",") {
                break;
            }
        }
        parser.words("where");
        let branches = parser.disjunction();
        let table = self.table_mut(&name)?;
        for i in 0..table.rows.len() {
            let mut row = table.rows[i].clone();
            if !table.holds(&branches[0], &row, &[], &[])? {
                continue;
            }
            for (column, value) in &assignments {
                row[table.position(column)?] = value.clone();
            }
            table.accept(&row)?;
            table.rows[i] = row;
        }
        Ok(())
    }

    fn execute_select(&mut self, parser: &mut Parser) -> Result<Vec<Vec<Value>>, String> {
        let mut picked = Vec::new();
        loop {
            let cast = parser.eat_word("cast");
            if cast {
                parser.symbol("(");
            }
            picked.push(parser.operand());
            if cast {
                parser.words("as varchar");
                if parser.eat_symbol("[") {
                    parser.symbol("]");
                }
                parser.symbol(")");
            }
            if !parser.eat_symbol(",") {
                break;
            }
        }
        parser.words("from");
        let name = parser.table();
        if name == "information_schema.columns" {
            parser.words("where");
            let terms = parser.conjunction();
            let mut wanted = HashMap::new();
            for term in terms {
                if let Term::Compare(Operand::Target(column), _, Operand::Value(Some(value))) = term
                {
                    wanted.insert(column, value.trim_matches('\'').to_owned());
                }
            }
            assert_eq!(wanted["table_catalog"], "lake");
            let found = self
                .tables
                .get(&wanted["table_name"])
                .is_some_and(|table| table.position(&wanted["column_name"]).is_ok());
            return Ok(if found { vec![vec![Some("1".to_owned())]] } else { Vec::new() });
        }
        let mut keys = vec![Vec::new()];
        let mut names = Vec::new();
        if parser.eat_word("as") {
            parser.words("cdc_target join");
            (keys, names) = Lake::key_relation(parser);
            parser.words("on");
        } else {
            parser.words("where");
        }
        let terms = parser.conjunction();
        let table = self.table(&name)?;
        let mut rows = Vec::new();
        for row in &table.rows {
            for key in &keys {
                if table.holds(&terms, row, &names, key)? {
                    let mut values = Vec::new();
                    for operand in &picked {
                        values.push(table.resolve(operand, row, &names, key)?);
                    }
                    rows.push(values);
                }
            }
        }
        if parser.eat_word("order") {
            rows.sort_by_key(|row| {
                row.iter()
                    .map(|value| -value.as_ref().unwrap().parse::<i128>().unwrap())
                    .collect::<Vec<_>>()
            });
            rows.truncate(1);
        }
        Ok(rows)
    }

    /// Appends a payload to a staging table.
    fn append(&mut self, staging: &str, rows: &PreparedRows) -> Result<(), EtlError> {
        let rows = match rows {
            PreparedRows::Appender(rows) | PreparedRows::ArrowRecordBatch(rows) => rows,
            PreparedRows::SqlLiterals(_) => panic!("literals are executed"),
        };
        for row in rows {
            let values = row.values().iter().map(literal).collect();
            self.insert_row(staging, &[], values).map_err(|error| EtlError {
                driver: Some(error),
                ..EtlError::new(
                    ErrorKind::DestinationQueryFailed,
                    "DuckLake staging append_row failed",
                )
            })?;
        }
        Ok(())
    }

    fn step(
        &mut self,
        batch: &PreparedDuckLakeTableBatch,
        step: &BatchStep,
    ) -> Result<(), EtlError> {
        match step {
            BatchStep::CreateStaging(statement) | BatchStep::Execute(statement) => {
                self.run(statement).map(|_| ())
            }
            BatchStep::Append { operation } => {
                let PreparedDuckLakeTableBatchAction::Mutation(operations) = &batch.action else {
                    panic!("a truncate stages nothing");
                };
                let PreparedTableMutation::Upsert(rows) = &operations[*operation] else {
                    panic!("only upserts stage rows");
                };
                let staging = format!("__staging_{}", batch.table_name.id());
                self.append(&staging, rows)
            }
        }
    }

    /// Applies one batch in one transaction.
    fn apply_batch(
        &mut self,
        batch: &PreparedDuckLakeTableBatch,
        hooks: &mut DuckLakeTestHooks,
    ) -> Result<(), EtlError> {
        let mut transaction = BatchTransaction::new(&self.progress, batch);
        loop {
            let result = match transaction.action() {
                TransactionAction::Begin => self.run(&build_begin_statement()).map(|_| ()),
                TransactionAction::Step(step) => self.step(batch, step),
                TransactionAction::Checkpoint(statement) => self.run(statement).map(|_| ()),
                TransactionAction::Commit => self.run(&build_commit_statement()).map(|_| ()),
                TransactionAction::Rollback => {
                    self.execute(ROLLBACK_SQL).unwrap();
                    Ok(())
                }
                TransactionAction::Cleanup(statement) => self.run(statement).map(|_| ()),
                TransactionAction::Done => break,
            };
            match result {
                Ok(()) => transaction.succeeded(batch, hooks),
                Err(error) => transaction.failed(error),
            }
        }
        finish_batch(transaction, batch, hooks)
    }

    fn marker_exists(&mut self, batch: &PreparedDuckLakeTableBatch) -> Result<bool, EtlError> {
        let query = build_marker_query(&batch.table_name, &batch.replay_epoch, &batch.batch_id);
        self.run(&query).map(|rows| !rows.is_empty())
    }

    fn read_progress(
        &mut self,
        table: &DuckLakeTableName,
        replay_epoch: &str,
    ) -> Result<Option<TableStreamingProgress>, EtlError> {
        let mut found = Vec::new();
        for query in build_progress_queries(&self.progress, table, replay_epoch) {
            let rows = self.run(&query)?;
            found.push(rows.first().map(|row| {
                let number = |value: &Value| value.as_ref().unwrap().parse::<u64>().unwrap();
                (number(&row[0]), number(&row[1]))
            }));
        }
        Ok(progress_from_rows(&found))
    }

    /// Applies prepared batches in order, skipping what was committed already.
    fn apply_batches_with_hooks(
        &mut self,
        batches: &Vec<PreparedDuckLakeTableBatch>,
        known: Option<TableStreamingProgress>,
        hooks: &mut DuckLakeTestHooks,
    ) -> Result<Option<TableStreamingProgress>, EtlError> {
        self.drive(BatchReplay::for_attempt(batches, known), batches, hooks)
    }

    /// Drives a replay to its end.
    fn drive(
        &mut self,
        mut replay: BatchReplay,
        batches: &Vec<PreparedDuckLakeTableBatch>,
        hooks: &mut DuckLakeTestHooks,
    ) -> Result<Option<TableStreamingProgress>, EtlError> {
        loop {
            match replay.phase() {
                ReplayPhase::ReadProgress => {
                    match self.read_progress(&batches[0].table_name, &batches[0].replay_epoch) {
                        Ok(progress) => replay.progress_read(batches, progress),
                        Err(error) => replay.failed(batches, error),
                    }
                }
                ReplayPhase::FindMarker(index) => match self.marker_exists(&batches[index]) {
                    Ok(found) => replay.marker_found(batches, found),
                    Err(error) => replay.failed(batches, error),
                },
                ReplayPhase::Apply(index) => match self.apply_batch(&batches[index], hooks) {
                    Ok(()) => replay.applied(batches),
                    Err(error) => replay.failed(batches, error),
                },
                ReplayPhase::Done => return replay.into_result(),
            }
        }
    }

    fn apply_batches(
        &mut self,
        batches: &Vec<PreparedDuckLakeTableBatch>,
        known: Option<TableStreamingProgress>,
    ) -> Result<Option<TableStreamingProgress>, EtlError> {
        self.apply_batches_with_hooks(batches, known, &mut DuckLakeTestHooks::new())
    }

    /// Reads back what a request asks for.
    fn recover(
        &mut self,
        table: &DuckLakeTableName,
        schema: &ReplicatedTableSchema,
        request: &PartialUpdateRecoveryRequest,
    ) -> Result<PartialUpdateRecoveryOutcome, EtlError> {
        let mut read = RecoveryRead::new(schema, request)?;
        while let Some(statement) = read.next_statement(table, schema, request) {
            for row in self.run(&statement)? {
                let values: Vec<StoredValue> = row.into_iter().map(stored).collect();
                read.row(schema, request, &values)?;
            }
            read.statement_done(schema, request);
        }
        Ok(read.into_outcome(schema, request))
    }

    /// Runs prepared operations outside of a batch.
    fn apply_operations(
        &mut self,
        schema: &ReplicatedTableSchema,
        operations: Vec<PreparedTableMutation>,
    ) {
        let mut batch = make_prepared_batch(ducklake_table_name());
        batch.insert_column_names = replicated_column_names(schema);
        batch.action = PreparedDuckLakeTableBatchAction::Mutation(operations);
        for step in build_batch_steps(&batch) {
            self.step(&batch, &step).unwrap();
        }
    }

    fn sorted_rows(&self, name: &str) -> Vec<Vec<Value>> {
        let mut rows = self.tables[name].rows.clone();
        rows.sort();
        rows
    }
}

fn literal(cell: &Cell) -> Value {
    match cell {
        Cell::Null => None,
        cell => Some(cell_to_sql_literal_ref(cell)),
    }
}

/// A value of the lake as its driver hands it over.
fn stored(value: Value) -> StoredValue {
    StoredValue::Scalar(match value {
        None => StoredScalar::Null,
        Some(literal) => match literal.parse::<i32>() {
            Ok(number) => StoredScalar::Int(number),
            Err(_) => {
                let text = literal.trim_matches('\'').replace("''", "'");
                StoredScalar::Text { text, numeric: None, time_tz: None }
            }
        },
    })
}

fn column(name: &str, kind: TypeKind) -> ColumnSchema {
    ColumnSchema::new(name, ColumnType::new(kind, false, "type"))
}

fn users(columns: Vec<ColumnSchema>) -> ReplicatedTableSchema {
    ReplicatedTableSchema::new("public.users", columns)
}

fn make_replicated_schema() -> ReplicatedTableSchema {
    users(vec![column("id", TypeKind::Int4).with_identity(), column("name", TypeKind::Other)])
}

fn ducklake_table_name() -> DuckLakeTableName {
    DuckLakeTableName::new("public", "users")
}

fn integer(value: i32) -> Cell {
    Cell::Value(Scalar::I32(value))
}

fn text(value: &str) -> Cell {
    Cell::Value(Scalar::Text(TextKind::Plain, value.to_owned()))
}

fn row(values: Vec<Cell>) -> TableRow {
    TableRow::new(values)
}

fn key_at(lsn: u64, ordinal: u64) -> EventSequenceKey {
    EventSequenceKey::new(PgLsn(lsn), ordinal)
}

fn make_prepared_batch(table_name: DuckLakeTableName) -> PreparedDuckLakeTableBatch {
    PreparedDuckLakeTableBatch {
        table_name,
        replay_epoch: LEGACY_REPLAY_EPOCH.to_owned(),
        batch_id: "test-batch".to_owned(),
        batch_kind: DuckLakeTableBatchKind::Mutation,
        first_start_lsn: None,
        last_commit_lsn: None,
        first_sequence_key: None,
        last_sequence_key: None,
        insert_column_names: vec![],
        action: PreparedDuckLakeTableBatchAction::Mutation(vec![]),
    }
}

fn users_lake() -> Lake {
    let mut lake = Lake::with_helpers();
    lake.create("public.users", &[("id", "integer"), ("name", "varchar")]);
    lake
}

fn toast_replicated_schema() -> ReplicatedTableSchema {
    users(vec![
        column("id", TypeKind::Int4).with_identity(),
        column("name", TypeKind::Other),
        column("payload", TypeKind::Other),
    ])
}

fn toast_partial_update(id: i32, name: &str) -> TableMutation {
    TableMutation::Update {
        delete_row: OldTableRow::Key(row(vec![integer(id)])),
        new_row: UpdatedTableRow::Partial(PartialTableRow::new(
            3,
            row(vec![integer(id), text(name)]),
            vec![2],
        )),
    }
}

fn seeded_toast_lake(rows: &[(i32, &str, &str)]) -> Lake {
    let mut lake = Lake::with_helpers();
    lake.create("public.users", &[("id", "integer"), ("name", "varchar"), ("payload", "varchar")]);
    for (id, name, payload) in rows {
        lake.execute(&format!(
            "insert into lake.public.users values ({id}, '{name}', '{payload}');"
        ))
        .unwrap();
    }
    lake
}

/// Applies prepared operations and reads every row back.
fn apply_and_read_toast_lake(
    lake: &mut Lake,
    schema: &ReplicatedTableSchema,
    operations: Vec<PreparedTableMutation>,
) -> Vec<(i32, String, String)> {
    lake.apply_operations(schema, operations);
    let unquoted = |value: &Value| value.as_ref().unwrap().trim_matches('\'').to_owned();
    let mut rows: Vec<(i32, String, String)> = lake.tables["public.users"]
        .rows
        .iter()
        .map(|row| {
            (row[0].as_ref().unwrap().parse().unwrap(), unquoted(&row[1]), unquoted(&row[2]))
        })
        .collect();
    rows.sort();
    rows
}

/// Plans and reads what the mutations leave out. Without a lake nothing may be
/// read.
fn recover_for(
    schema: &ReplicatedTableSchema,
    mutations: &[TableMutation],
    max_recovered_bytes: usize,
    lake: Option<&mut Lake>,
) -> RecoveredPartialRows {
    if !has_canonical_identity(schema) {
        return RecoveredPartialRows::empty();
    }
    let borrowed: Vec<&TableMutation> = mutations.iter().collect();
    let request = plan_partial_update_recovery(schema, &borrowed, max_recovered_bytes).unwrap();
    if request.is_empty() {
        return RecoveredPartialRows::empty();
    }
    let lake = lake.expect("the batch must not read stored rows");
    let outcome = lake.recover(&ducklake_table_name(), schema, &request).unwrap();
    assert_eq!(outcome.covered_keys, request.keys().len());
    outcome.recovered
}

fn recover_and_prepare_table_mutations(
    schema: &ReplicatedTableSchema,
    mutations: Vec<TableMutation>,
    lake: Option<&mut Lake>,
) -> Vec<PreparedTableMutation> {
    let recovered = recover_for(schema, &mutations, usize::MAX, lake);
    prepare_table_mutations(schema, mutations, recovered).unwrap()
}

/// Prepares every batch of a backlog as if storage held none of the identities
/// it asks for.
fn prepare_mutation_table_batches(
    config: DuckLakeStreamingBatchConfig,
    schema: &ReplicatedTableSchema,
    tracked_mutations: Vec<TrackedTableMutation>,
) -> Vec<PreparedDuckLakeTableBatch> {
    let mut run = MutationRun::new(config, tracked_mutations);
    let mut batches = Vec::new();
    loop {
        let recovered = match run.next_chunk(schema).unwrap() {
            ChunkStep::Done => return batches,
            ChunkStep::Prepare => RecoveredPartialRows::empty(),
            ChunkStep::Recover(request) => {
                run.recovered(&request, request.keys().len());
                RecoveredPartialRows::for_request(&request)
            }
        };
        let prepared = run.prepare(schema, &ducklake_table_name(), LEGACY_REPLAY_EPOCH, recovered);
        batches.extend(prepared.unwrap());
    }
}

/// Builds a backlog with repeated keys inside one source transaction.
fn replacement_backlog(count: u64) -> Vec<TrackedTableMutation> {
    (0..count)
        .map(|index| {
            TrackedTableMutation::new(
                key_at(100, index),
                TableMutation::Replace(row(vec![
                    integer(i32::try_from(index % 7).unwrap()),
                    text(&format!("version-{index}")),
                ])),
            )
        })
        .collect()
}

#[test]
fn applied_batch_marker_exists_filters_by_replay_epoch() {
    let mut lake = Lake::with_helpers();
    let mut batch = make_prepared_batch(ducklake_table_name());
    batch.replay_epoch = "current".to_owned();

    lake.execute(
        "insert into lake.\"__etl_applied_table_batches\"
           (table_name, replay_epoch, batch_id, batch_kind, applied_at)
           values ('public.users', 'other', 'test-batch', 'mutation', current_timestamp);",
    )
    .unwrap();
    assert!(!lake.marker_exists(&batch).unwrap());

    lake.execute(
        "insert into lake.\"__etl_applied_table_batches\"
           (table_name, replay_epoch, batch_id, batch_kind, applied_at)
           values ('public.users', 'current', 'test-batch', 'mutation', current_timestamp);",
    )
    .unwrap();
    assert!(lake.marker_exists(&batch).unwrap());
}

#[test]
fn applied_batch_marker_exists_treats_null_replay_epoch_as_legacy() {
    let mut lake = Lake::with_helpers();
    let legacy_batch = make_prepared_batch(ducklake_table_name());
    let mut current_batch = make_prepared_batch(ducklake_table_name());
    current_batch.replay_epoch = "current".to_owned();

    lake.execute(
        "insert into lake.\"__etl_applied_table_batches\"
           (table_name, replay_epoch, batch_id, batch_kind, applied_at)
           values ('public.users', null, 'test-batch', 'mutation', current_timestamp);",
    )
    .unwrap();

    assert!(lake.marker_exists(&legacy_batch).unwrap());
    assert!(!lake.marker_exists(&current_batch).unwrap());
}

#[test]
fn ensure_helper_table_replay_epoch_column_adds_missing_column() {
    let mut lake = Lake::new();
    lake.create(
        "__etl_applied_table_batches",
        &[("table_name", "varchar"), ("batch_id", "varchar")],
    );
    let query = build_column_query(APPLIED_BATCHES_TABLE, REPLAY_EPOCH_COLUMN);

    assert!(lake.run(&query).unwrap().is_empty());
    lake.ensure_helper(HelperTable::AppliedBatches).unwrap();
    assert!(!lake.run(&query).unwrap().is_empty());
    lake.ensure_helper(HelperTable::AppliedBatches).unwrap();
    assert_eq!(lake.tables["__etl_applied_table_batches"].columns.len(), 3);
}

#[test]
fn read_table_streaming_progress_sequence_key_filters_by_replay_epoch() {
    let mut lake = Lake::with_helpers();
    let table_name = ducklake_table_name();

    lake.execute(
        "insert into lake.\"__etl_streaming_progress\"
           (table_name, replay_epoch, last_commit_lsn, last_tx_ordinal, updated_at)
           values
             ('public.users', 'current', 20, 1, current_timestamp),
             ('public.users', 'other', 999, 0, current_timestamp),
             ('public.users', 'current', 20, 2, current_timestamp),
             ('public.users', null, 30, 0, current_timestamp);",
    )
    .unwrap();

    let current_key =
        lake.read_progress(&table_name, "current").unwrap().map(|p| p.last_sequence_key);
    assert_eq!(current_key, Some(key_at(20, 2)));

    let legacy_key =
        lake.read_progress(&table_name, LEGACY_REPLAY_EPOCH).unwrap().map(|p| p.last_sequence_key);
    assert_eq!(legacy_key, Some(key_at(30, 0)));
    assert_eq!(lake.read_progress(&table_name, "absent").unwrap(), None);
}

#[test]
fn staging_load_rows_appends_arrow_record_batch() {
    let mut lake = Lake::new();
    lake.create(
        "staging_arrow_copy",
        &[("id", "integer"), ("name", "varchar"), ("created_at", "timestamp")],
    );
    let created_at =
        Cell::Value(Scalar::Text(TextKind::Timestamp, "2026-01-02 03:04:05".to_owned()));
    let prepared_rows = prepare_copy_rows(vec![
        row(vec![integer(1), text("alice"), created_at]),
        row(vec![integer(2), Cell::Null, Cell::Null]),
    ]);
    assert!(matches!(prepared_rows, PreparedRows::ArrowRecordBatch(_)));

    let staging_table = ReusableStagingTable {
        table_name: ducklake_table_name(),
        staging_name: "staging_arrow_copy".to_owned(),
        created: true,
        insert_column_names: vec!["id".to_owned(), "name".to_owned(), "created_at".to_owned()],
    };

    assert!(matches!(staging_table.load_rows(&prepared_rows), StagingLoad::Append));
    lake.append(&staging_table.staging_name, &prepared_rows).unwrap();

    let staged = &lake.tables["staging_arrow_copy"].rows;
    let id_sum: i64 =
        staged.iter().map(|row| row[0].as_ref().unwrap().parse::<i64>().unwrap()).sum();
    assert_eq!(staged.len(), 2);
    assert_eq!(id_sum, 3);
}

#[test]
fn default_batches_preserve_replay_and_roll_back_only_failed_batch() {
    let mut lake = users_lake();
    let schema = make_replicated_schema();
    let prepare = || {
        prepare_mutation_table_batches(
            DuckLakeStreamingBatchConfig::default(),
            &schema,
            replacement_backlog(20),
        )
    };
    let batches = prepare();
    let first: Vec<PreparedDuckLakeTableBatch> = prepare().into_iter().take(1).collect();
    let cached = lake.apply_batches(&first, None).unwrap();
    let ordinal = |lake: &mut Lake| {
        lake.read_progress(&ducklake_table_name(), LEGACY_REPLAY_EPOCH)
            .unwrap()
            .unwrap()
            .last_sequence_key
            .tx_ordinal
    };
    assert_eq!(ordinal(&mut lake), 15);
    // The second batch deletes first, then fails inserting a malformed row.
    let mut failed = prepare().remove(1);
    let PreparedDuckLakeTableBatchAction::Mutation(operations) = &mut failed.action else {
        unreachable!()
    };
    operations[1] = PreparedTableMutation::Upsert(prepare_rows(vec![row(vec![
        text("invalid-integer"),
        Cell::Null,
    ])]));
    let error = lake.apply_batches(&vec![failed], cached).unwrap_err();
    assert_eq!(error.description(), "DuckLake atomic table batch failed");
    assert_eq!(lake.tables["public.users"].rows.len(), 7);
    assert_eq!(ordinal(&mut lake), 15);
    // Replaying the entire source transaction skips committed work and
    // continues.
    let reloaded = lake.apply_batches(&batches, None).unwrap();
    lake.apply_batches(&batches, reloaded).unwrap();
    let named = |id: i32, name: &str| vec![Some(id.to_string()), Some(format!("'{name}'"))];
    assert_eq!(
        lake.sorted_rows("public.users"),
        vec![
            named(0, "version-14"),
            named(1, "version-15"),
            named(2, "version-16"),
            named(3, "version-17"),
            named(4, "version-18"),
            named(5, "version-19"),
            named(6, "version-13"),
        ]
    );
    assert_eq!(ordinal(&mut lake), 19);
    assert!(!lake.tables.contains_key("__staging_public.users"));
}

/// Builds mixed changes, including dependencies on earlier keys.
fn rewrite_case(kind: usize, version: usize) -> TableMutation {
    let named = |id| row(vec![integer(id), text(&format!("v{version}"))]);
    match kind {
        0 | 1 => TableMutation::Replace(named(i32::try_from(kind + 1).unwrap())),
        2 | 3 => TableMutation::Update {
            delete_row: OldTableRow::Key(row(vec![integer(1)])),
            new_row: UpdatedTableRow::Full(named(if kind == 2 { 1 } else { 2 })),
        },
        4 => TableMutation::Update {
            delete_row: OldTableRow::Key(row(vec![integer(1)])),
            new_row: UpdatedTableRow::Partial(PartialTableRow::new(2, named(1), vec![])),
        },
        5 => TableMutation::Delete(OldTableRow::Key(row(vec![integer(1)]))),
        6 | 7 => TableMutation::Insert(named(i32::try_from(kind - 5).unwrap())),
        8 | 9 => TableMutation::Update {
            delete_row: OldTableRow::Key(row(vec![integer(1)])),
            new_row: UpdatedTableRow::Partial(PartialTableRow::new(
                2,
                row(vec![integer(if kind == 8 { 1 } else { 2 })]),
                vec![1],
            )),
        },
        10 => TableMutation::Delete(OldTableRow::Full(named(2))),
        11 => TableMutation::Update {
            delete_row: OldTableRow::Full(named(2)),
            new_row: UpdatedTableRow::Full(named(1)),
        },
        12 => TableMutation::Update {
            delete_row: OldTableRow::Key(row(vec![integer(3)])),
            new_row: UpdatedTableRow::Partial(PartialTableRow::new(
                2,
                row(vec![text(&format!("v{version}"))]),
                vec![0],
            )),
        },
        13 => TableMutation::Replace(row(vec![integer(1), Cell::Null])),
        _ => unreachable!("test case kind is in 0..14"),
    }
}

/// Executes the prepared operations of a case, grouped into batches or one event
/// at a time.
fn execute_rewrite_case(
    lake: &mut Lake,
    schema: &ReplicatedTableSchema,
    kinds: &[usize],
    grouped: bool,
) -> Vec<Vec<Value>> {
    lake.tables.get_mut("public.users").unwrap().rows = vec![
        vec![Some("1".to_owned()), Some("'before-1'".to_owned())],
        vec![Some("2".to_owned()), Some("'before-2'".to_owned())],
    ];
    lake.executed.clear();
    let mutations: Vec<TableMutation> =
        kinds.iter().enumerate().map(|(i, kind)| rewrite_case(*kind, i)).collect();
    if grouped {
        // Preparation is interleaved with application, so every batch completes
        // its partial updates from the rows the previous batch left.
        let backlog = mutations
            .into_iter()
            .enumerate()
            .map(|(index, mutation)| {
                TrackedTableMutation::new(key_at(100, u64::try_from(index).unwrap()), mutation)
            })
            .collect();
        for chunk in split_tracked_mutations(DuckLakeStreamingBatchConfig::default(), backlog) {
            let group = chunk.into_iter().map(|entry| entry.into_mutation()).collect();
            let operations = recover_and_prepare_table_mutations(schema, group, Some(&mut *lake));
            lake.apply_operations(schema, operations);
        }
    } else {
        for mutation in mutations {
            let operations = prepare_ordered_table_mutations(schema, vec![mutation]).unwrap();
            lake.apply_operations(schema, operations);
        }
    }
    lake.sorted_rows("public.users")
}

#[test]
fn grouped_rewrites_match_ordered_sql_for_mixed_dependencies() {
    let mut lake = users_lake();
    let schema = make_replicated_schema();
    let mut check = |kinds: &[usize]| {
        assert_eq!(
            execute_rewrite_case(&mut lake, &schema, kinds, true),
            execute_rewrite_case(&mut lake, &schema, kinds, false),
            "case {kinds:?}",
        );
    };
    for kinds in [
        vec![6, 0, 7, 1],
        vec![0, 7, 1, 7],
        vec![0, 7, 7, 1],
        vec![0, 7, 1, 3],
        vec![0, 7, 1, 4],
        vec![0, 7, 1, 5],
    ] {
        check(&kinds);
    }
    // Reproducible longer streams cross the 16-event atomic batch cap.
    let mut rng = rand::rngs::StdRng::seed_from_u64(20260910);
    for length in [15, 16, 17, 31, 32, 33, 64] {
        for _ in 0..8 {
            let kinds: Vec<usize> = (0..length).map(|_| rng.random_range(0..14)).collect();
            check(&kinds);
        }
    }
    // Enumerate repeat-key, key-change, partial-update, insert and delete
    // interactions both before and after a candidate coalesced run.
    for a in 0..14 {
        for b in 0..14 {
            for c in 0..14 {
                check(&[a, b, c]);
            }
        }
    }
}

#[test]
fn composite_identity_types_match_ordered_sql() {
    let ids = ["00000000-0000-0000-0000-000000000001", "00000000-0000-0000-0000-000000000002"];
    let uuid = |value: &str| {
        Cell::Value(Scalar::Uuid(uuid::Uuid::parse_str(value).unwrap().as_u128()))
    };
    let float8 =
        |value: &str| Cell::Value(Scalar::Text(TextKind::Float8, value.to_owned()));
    let cases: Vec<(TypeKind, &str, Vec<Cell>)> = vec![
        (
            TypeKind::Int2,
            "smallint",
            vec![Cell::Value(Scalar::I16(1)), Cell::Value(Scalar::I16(2)), Cell::Null],
        ),
        (
            TypeKind::Int8,
            "bigint",
            vec![
                Cell::Value(Scalar::I64(i64::MIN)),
                Cell::Value(Scalar::I64(i64::MAX)),
                Cell::Null,
            ],
        ),
        (TypeKind::Uuid, "uuid", vec![uuid(ids[0]), uuid(ids[1]), Cell::Null]),
        (TypeKind::Uuid, "uuid", vec![Cell::Null, Cell::Null, Cell::Null]),
        (TypeKind::Float8, "double", vec![float8("0"), float8("-0"), float8("NaN")]),
        (
            TypeKind::Other,
            "varchar collate nocase",
            vec![text("a"), text("A"), text("a' ")],
        ),
    ];
    for (kind, sql_type, keys) in cases {
        let schema = users(vec![
            column("id", kind).with_identity(),
            column("bucket", TypeKind::Int4).with_identity(),
            column("name", TypeKind::Other),
        ]);
        let mut lake = Lake::with_helpers();
        lake.create("public.users", &[("id", sql_type), ("bucket", "integer"), ("name", "varchar")]);
        let mut results = Vec::new();
        for grouped in [false, true] {
            lake.execute("truncate table lake.public.users").unwrap();
            let named = |index: usize, bucket: i32, value: &str| {
                row(vec![keys[index].clone(), integer(bucket), text(value)])
            };
            let key = |index: usize, bucket: i32| {
                OldTableRow::Key(row(vec![keys[index].clone(), integer(bucket)]))
            };
            let mutations = vec![
                TableMutation::Insert(named(0, 0, "start")),
                TableMutation::Replace(named(1, 0, "replace")),
                TableMutation::Update {
                    delete_row: key(0, 0),
                    new_row: UpdatedTableRow::Full(named(2, 1, "move")),
                },
                TableMutation::Insert(named(2, 0, "other bucket")),
                TableMutation::Update {
                    delete_row: key(2, 1),
                    new_row: UpdatedTableRow::Partial(PartialTableRow::new(
                        3,
                        row(vec![text("partial")]),
                        vec![0, 1],
                    )),
                },
                TableMutation::Delete(key(1, 0)),
                TableMutation::Replace(named(2, 1, "final")),
            ];
            let operations = if grouped {
                prepare_table_mutations(&schema, mutations, RecoveredPartialRows::empty()).unwrap()
            } else {
                prepare_ordered_table_mutations(&schema, mutations).unwrap()
            };
            lake.apply_operations(&schema, operations);
            results.push(lake.sorted_rows("public.users"));
        }
        assert_eq!(results[0], results[1], "type {sql_type}");
        assert!(!results[0].is_empty());
    }
}

#[test]
fn truncate_between_normalized_batches_preserves_replay_order() {
    let mut lake = users_lake();
    let schema = make_replicated_schema();
    let make_batch = |lsn: u64| {
        prepare_mutation_table_batches(
            DuckLakeStreamingBatchConfig::default(),
            &schema,
            vec![TrackedTableMutation::new(
                key_at(lsn, 0),
                TableMutation::Insert(row(vec![
                    integer(i32::try_from(lsn).unwrap()),
                    text("row"),
                ])),
            )],
        )
        .remove(0)
    };
    let truncate = || {
        prepare_truncate_table_batch(
            ducklake_table_name(),
            LEGACY_REPLAY_EPOCH.to_owned(),
            vec![TrackedTruncateEvent::new(key_at(200, 0), 0)],
        )
    };
    lake.apply_batches(&vec![make_batch(100), truncate()], None).unwrap();
    assert_eq!(lake.tables["public.users"].rows.len(), 0);
    let batches = vec![make_batch(100), truncate(), make_batch(300)];
    for _ in 0..2 {
        lake.apply_batches(&batches, None).unwrap();
        assert_eq!(lake.tables["public.users"].rows.len(), 1);
        assert_eq!(lake.tables["public.users"].rows[0][0].as_deref(), Some("300"));
    }
    assert_eq!(
        lake.read_progress(&ducklake_table_name(), LEGACY_REPLAY_EPOCH)
            .unwrap()
            .unwrap()
            .last_sequence_key
            .commit_lsn,
        PgLsn(300)
    );
}

#[test]
fn partial_updates_of_distinct_keys_use_one_delete_and_one_insert() {
    let schema = toast_replicated_schema();
    let seed: Vec<(i32, &str, &str)> = (0..8).map(|id| (id, "before", "toasted")).collect();
    let mut lake = seeded_toast_lake(&seed);

    let prepared = recover_and_prepare_table_mutations(
        &schema,
        (0..8).map(|id| toast_partial_update(id, "after")).collect(),
        Some(&mut lake),
    );

    // One key-set delete plus one staged insert, whatever the event count.
    assert_eq!(prepared.len(), 2);
    let PreparedTableMutation::Delete { predicates, key_set, origin } = &prepared[0] else {
        panic!("expected delete");
    };
    assert_eq!(predicates.len(), 8);
    assert_eq!(origin.as_str(), "update");
    assert!(key_set.is_some());
    let PreparedTableMutation::Upsert(rows) = &prepared[1] else { panic!("expected insert") };
    assert_eq!(prepared_rows_count(rows), 8);

    // The omitted column keeps its stored value in every completed row.
    assert_eq!(
        apply_and_read_toast_lake(&mut lake, &schema, prepared),
        (0..8).map(|id| (id, "after".to_owned(), "toasted".to_owned())).collect::<Vec<_>>()
    );
}

#[test]
fn repeated_partial_updates_of_one_key_apply_in_event_order() {
    let schema = toast_replicated_schema();
    let mut lake = seeded_toast_lake(&[(1, "before", "toasted")]);

    let prepared = recover_and_prepare_table_mutations(
        &schema,
        vec![
            toast_partial_update(1, "first"),
            toast_partial_update(1, "second"),
            toast_partial_update(1, "third"),
        ],
        Some(&mut lake),
    );

    assert_eq!(prepared.len(), 2);
    let PreparedTableMutation::Delete { predicates, .. } = &prepared[0] else {
        panic!("expected delete");
    };
    assert_eq!(predicates.len(), 1);
    assert_eq!(
        apply_and_read_toast_lake(&mut lake, &schema, prepared),
        vec![(1, "third".to_owned(), "toasted".to_owned())]
    );
}

#[test]
fn partial_update_of_a_rewritten_key_folds_in_memory_without_reading() {
    let schema = toast_replicated_schema();
    let inserted = row(vec![integer(1), text("inserted"), text("fresh")]);

    let prepared = recover_and_prepare_table_mutations(
        &schema,
        vec![
            TableMutation::Delete(OldTableRow::Key(row(vec![integer(1)]))),
            TableMutation::Insert(inserted),
            toast_partial_update(1, "patched"),
        ],
        None,
    );

    assert_eq!(prepared.len(), 2);
    let PreparedTableMutation::Upsert(rows) = &prepared[1] else { panic!("expected insert") };
    assert_eq!(prepared_rows_count(rows), 1);

    let mut lake = seeded_toast_lake(&[(1, "before", "toasted")]);
    assert_eq!(
        apply_and_read_toast_lake(&mut lake, &schema, prepared),
        vec![(1, "patched".to_owned(), "fresh".to_owned())]
    );
}

#[test]
fn partial_update_of_an_absent_key_keeps_the_ordered_update() {
    let schema = toast_replicated_schema();
    let mut lake = seeded_toast_lake(&[(1, "before", "toasted")]);

    let prepared = recover_and_prepare_table_mutations(
        &schema,
        vec![toast_partial_update(2, "after")],
        Some(&mut lake),
    );

    // A key with no stored row must not become an insert, so it keeps the
    // ordered statement, which matches no row and leaves the table alone.
    assert_eq!(prepared.len(), 1);
    let PreparedTableMutation::Update { predicate, .. } = &prepared[0] else {
        panic!("expected update");
    };
    assert_eq!(predicate, "\"id\" = 2");
    assert_eq!(
        apply_and_read_toast_lake(&mut lake, &schema, prepared),
        vec![(1, "before".to_owned(), "toasted".to_owned())]
    );
}

#[test]
fn mixed_batch_with_partial_updates_matches_sequential_execution() {
    let schema = toast_replicated_schema();
    let seed: Vec<(i32, &str, &str)> = vec![
        (1, "before-1", "toast-1"),
        (2, "before-2", "toast-2"),
        (3, "before-3", "toast-3"),
    ];
    let named = |id: i32, name: &str, payload: &str| {
        row(vec![integer(id), text(name), text(payload)])
    };
    let mutations = || {
        vec![
            TableMutation::Insert(named(4, "inserted", "fresh")),
            toast_partial_update(1, "patched-1"),
            TableMutation::Delete(OldTableRow::Key(row(vec![integer(2)]))),
            TableMutation::Replace(named(3, "replaced-3", "replaced-toast")),
            toast_partial_update(3, "patched-3"),
            toast_partial_update(4, "patched-4"),
            TableMutation::Update {
                delete_row: OldTableRow::Key(row(vec![integer(1)])),
                new_row: UpdatedTableRow::Full(named(1, "final-1", "final-toast")),
            },
        ]
    };

    let mut grouped_lake = seeded_toast_lake(&seed);
    let grouped =
        recover_and_prepare_table_mutations(&schema, mutations(), Some(&mut grouped_lake));
    let grouped_rows = apply_and_read_toast_lake(&mut grouped_lake, &schema, grouped);

    let mut ordered_lake = seeded_toast_lake(&seed);
    let mut ordered_rows = Vec::new();
    for mutation in mutations() {
        let operations = prepare_ordered_table_mutations(&schema, vec![mutation]).unwrap();
        ordered_rows = apply_and_read_toast_lake(&mut ordered_lake, &schema, operations);
    }

    assert_eq!(grouped_rows, ordered_rows);
}

#[test]
fn partial_update_of_a_key_inserted_in_the_same_batch_stays_coalesced() {
    let schema = toast_replicated_schema();
    let mut lake = seeded_toast_lake(&[(9, "other", "other-toast")]);
    let inserted = row(vec![integer(1), text("inserted"), text("fresh")]);

    let prepared = recover_and_prepare_table_mutations(
        &schema,
        vec![TableMutation::Insert(inserted), toast_partial_update(1, "patched")],
        Some(&mut lake),
    );

    // The read proves storage holds no row for the identity, so the only row
    // the statement could touch is the one staged by this batch and the
    // insert-then-update shape stays a single staged insert.
    assert_eq!(prepared.len(), 1);
    let PreparedTableMutation::Upsert(rows) = &prepared[0] else { panic!("expected insert") };
    assert_eq!(prepared_rows_count(rows), 1);
    assert_eq!(
        apply_and_read_toast_lake(&mut lake, &schema, prepared),
        vec![
            (1, "patched".to_owned(), "fresh".to_owned()),
            (9, "other".to_owned(), "other-toast".to_owned()),
        ]
    );
}

#[test]
fn repeated_partial_updates_of_an_inserted_key_apply_in_event_order() {
    let schema = toast_replicated_schema();
    let mut lake = seeded_toast_lake(&[]);
    let inserted = row(vec![integer(1), text("inserted"), text("fresh")]);

    let prepared = recover_and_prepare_table_mutations(
        &schema,
        vec![
            TableMutation::Insert(inserted),
            toast_partial_update(1, "first"),
            toast_partial_update(1, "second"),
        ],
        Some(&mut lake),
    );

    assert_eq!(prepared.len(), 1);
    assert!(
        !prepared
            .iter()
            .any(|operation| matches!(operation, PreparedTableMutation::Update { .. }))
    );
    assert_eq!(
        apply_and_read_toast_lake(&mut lake, &schema, prepared),
        vec![(1, "second".to_owned(), "fresh".to_owned())]
    );
}

#[test]
fn recovered_rows_respect_the_streaming_byte_bound() {
    let schema = toast_replicated_schema();
    let payload = "x".repeat(64 * 1024);
    let seed: Vec<(i32, &str, &str)> = (0..8).map(|id| (id, "before", payload.as_str())).collect();
    let mut lake = seeded_toast_lake(&seed);
    // Room for a couple of recovered rows per batch, so the events have to be
    // spread over several batches even though they are tiny.
    let config = DuckLakeStreamingBatchConfig::new(1024, 3 * payload.len()).unwrap();
    let backlog = || {
        (0..8)
            .map(|id| {
                TrackedTableMutation::new(
                    key_at(100, u64::try_from(id).unwrap()),
                    toast_partial_update(id, "after"),
                )
            })
            .collect::<Vec<_>>()
    };
    assert_eq!(
        split_tracked_mutations(config, backlog()).len(),
        1,
        "the partial events themselves fit one batch"
    );

    let mut run = MutationRun::new(config, backlog());
    let mut batch_count = 0;
    let mut rows = Vec::new();
    loop {
        let recovered = match run.next_chunk(&schema).unwrap() {
            ChunkStep::Done => break,
            ChunkStep::Prepare => RecoveredPartialRows::empty(),
            ChunkStep::Recover(request) => {
                let outcome = lake.recover(&ducklake_table_name(), &schema, &request).unwrap();
                run.recovered(&request, outcome.covered_keys);
                outcome.recovered
            }
        };
        let batch = run
            .prepare(&schema, &ducklake_table_name(), LEGACY_REPLAY_EPOCH, recovered)
            .unwrap()
            .expect("every chunk prepares one batch");
        let PreparedDuckLakeTableBatchAction::Mutation(operations) = batch.action else {
            panic!("expected row mutations");
        };
        let completed_rows = operations
            .iter()
            .filter_map(|operation| match operation {
                PreparedTableMutation::Upsert(rows) => Some(prepared_rows_count(rows)),
                PreparedTableMutation::Delete { .. } | PreparedTableMutation::Update { .. } => None,
            })
            .sum::<usize>();
        // One batch overshoots its budget by at most the row that crossed it,
        // because the read sizes each statement from observed bytes.
        assert!(
            completed_rows * payload.len() <= config.max_bytes + payload.len(),
            "batch completed {completed_rows} rows of {} bytes",
            payload.len()
        );
        rows = apply_and_read_toast_lake(&mut lake, &schema, operations);
        batch_count += 1;
    }

    assert!(batch_count > 1, "the recovered rows must be split over several batches");
    assert_eq!(
        rows,
        (0..8).map(|id| (id, "after".to_owned(), payload.clone())).collect::<Vec<_>>()
    );
}

/// Prepares and applies a backlog, one batch at a time.
fn prepare_and_apply(
    lake: &mut Lake,
    config: DuckLakeStreamingBatchConfig,
    schema: &ReplicatedTableSchema,
    backlog: Vec<TrackedTableMutation>,
    hooks: &mut DuckLakeTestHooks,
) -> Result<usize, EtlError> {
    let mut run = MutationRun::new(config, backlog);
    let mut known = None;
    let mut count = 0;
    loop {
        let recovered = match run.next_chunk(schema)? {
            ChunkStep::Done => return Ok(count),
            ChunkStep::Prepare => RecoveredPartialRows::empty(),
            ChunkStep::Recover(request) => {
                let outcome = lake.recover(&ducklake_table_name(), schema, &request)?;
                run.recovered(&request, outcome.covered_keys);
                outcome.recovered
            }
        };
        let Some(batch) =
            run.prepare(schema, &ducklake_table_name(), LEGACY_REPLAY_EPOCH, recovered)?
        else {
            continue;
        };
        let batches = vec![batch];
        let mut retry = RetryLoop::new(commit_retry_policy());
        known = loop {
            let progress = progress_for_attempt(&retry, known);
            match lake.apply_batches_with_hooks(&batches, progress, hooks) {
                Ok(progress) => break progress,
                Err(error) => match retry.failed(&error) {
                    RetryStep::Retry { .. } => {}
                    RetryStep::GiveUp => return Err(error),
                },
            }
        };
        count += 1;
    }
}

#[test]
fn backlog_replays_in_order_across_batches() {
    let schema = make_replicated_schema();
    let config = DuckLakeStreamingBatchConfig::new(3, 1024 * 1024).unwrap();
    let mut rng = rand::rngs::StdRng::seed_from_u64(7);
    for _ in 0..50 {
        let kinds: Vec<usize> = (0..20).map(|_| rng.random_range(0..14)).collect();
        let backlog = kinds
            .iter()
            .enumerate()
            .map(|(i, kind)| {
                TrackedTableMutation::new(key_at(1, i as u64), rewrite_case(*kind, i))
            })
            .collect();
        let mut lake = users_lake();
        let expected = execute_rewrite_case(&mut lake, &schema, &kinds, false);
        let mut lake = users_lake();
        lake.execute(
            "insert into lake.public.users values (1, 'before-1'), (2, 'before-2');",
        )
        .unwrap();
        let count =
            prepare_and_apply(&mut lake, config, &schema, backlog, &mut DuckLakeTestHooks::new())
                .unwrap();
        assert!(count >= 7);
        assert_eq!(lake.sorted_rows("public.users"), expected, "case {kinds:?}");
    }
}

#[test]
fn replay_completes_whatever_was_committed() {
    let schema = make_replicated_schema();
    let prepare = || {
        prepare_mutation_table_batches(
            DuckLakeStreamingBatchConfig::new(3, 1024 * 1024).unwrap(),
            &schema,
            replacement_backlog(20),
        )
    };
    let batches = prepare();
    let mut once = users_lake();
    once.apply_batches(&batches, None).unwrap();
    for done in 0..=batches.len() {
        let mut lake = users_lake();
        let committed = prepare().into_iter().take(done).collect();
        lake.apply_batches(&committed, None).unwrap();
        let progress = lake.apply_batches(&batches, None).unwrap();
        assert_eq!(progress.unwrap().last_sequence_key, key_at(100, 19));
        assert_eq!(lake.sorted_rows("public.users"), once.sorted_rows("public.users"));
        assert_eq!(lake.tables["__etl_streaming_progress"].rows.len(), batches.len());
    }
}

#[test]
fn deletes_of_many_identities_are_cut_into_bounded_statements() {
    let mut lake = users_lake();
    let schema = make_replicated_schema();
    for id in 0..40 {
        lake.execute(&format!("insert into lake.public.users values ({id}, 'x');")).unwrap();
    }
    let deletes = (0..35)
        .map(|id| TableMutation::Delete(OldTableRow::Key(row(vec![integer(id)]))))
        .collect();
    let operations = prepare_ordered_table_mutations(&schema, deletes).unwrap();
    lake.executed.clear();
    lake.apply_operations(&schema, operations);
    assert_eq!(lake.executed.len(), 3);
    assert_eq!(lake.executed[0].matches(" OR ").count(), 15);
    assert_eq!(lake.executed[2].matches(" OR ").count(), 2);
    assert_eq!(lake.tables["public.users"].rows.len(), 5);
}

#[test]
fn batch_committed_behind_a_failure_is_not_applied_twice() {
    let schema = make_replicated_schema();
    let mut lake = users_lake();
    let mut hooks = DuckLakeTestHooks::new();
    arm_fail_after_atomic_batch_commit_once_for_tests(&mut hooks, "public.users");
    let backlog = vec![TrackedTableMutation::new(
        key_at(1, 0),
        TableMutation::Insert(row(vec![integer(1), text("once")])),
    )];
    let config = DuckLakeStreamingBatchConfig::default();
    prepare_and_apply(&mut lake, config, &schema, backlog, &mut hooks).unwrap();
    assert_eq!(lake.tables["public.users"].rows.len(), 1);
    assert_eq!(ducklake_staging_table_creations_for_tests(&hooks, "public.users"), 1);
    assert_eq!(ducklake_staging_table_creations_for_tests(&hooks, "public.orders"), 0);
    reset_ducklake_test_hooks(&mut hooks);
    assert_eq!(ducklake_staging_table_creations_for_tests(&hooks, "public.users"), 0);
}

#[test]
fn failed_batch_leaves_the_table_and_its_progress_alone() {
    let schema = make_replicated_schema();
    for failing in [
        "COMMIT",
        "insert into",
        "INSERT INTO lake.\"__etl_streaming_progress\"",
        "create or replace",
    ] {
        let mut lake = users_lake();
        lake.execute("insert into lake.public.users values (9, 'old');").unwrap();
        let batches = prepare_mutation_table_batches(
            DuckLakeStreamingBatchConfig::default(),
            &schema,
            replacement_backlog(3),
        );
        lake.failing = Some(failing.to_owned());
        let error = lake.apply_batch(&batches[0], &mut DuckLakeTestHooks::new()).unwrap_err();
        assert_eq!(error.kind(), ErrorKind::DestinationQueryFailed);
        lake.failing = None;
        if failing == "COMMIT" {
            assert_eq!(error.description(), "DuckLake COMMIT failed");
            assert!(!lake.executed.contains(&ROLLBACK_SQL.to_owned()));
        } else {
            assert!(lake.executed.contains(&ROLLBACK_SQL.to_owned()));
            assert_eq!(lake.tables["public.users"].rows.len(), 1);
            assert_eq!(
                lake.read_progress(&ducklake_table_name(), LEGACY_REPLAY_EPOCH).unwrap(),
                None
            );
        }
    }
}

#[test]
fn nested_rows_are_staged_as_bounded_statements() {
    let mut lake = users_lake();
    let schema = make_replicated_schema();
    let rows: Vec<TableRow> = (0..130)
        .map(|id| row(vec![integer(id), Cell::Array(vec![Some(Scalar::I32(id)), None])]))
        .collect();
    let prepared = prepare_table_mutations(
        &schema,
        rows.into_iter().map(TableMutation::Insert).collect(),
        RecoveredPartialRows::empty(),
    )
    .unwrap();
    lake.apply_operations(&schema, prepared);
    assert_eq!(lake.tables["public.users"].rows.len(), 130);
    let staged =
        lake.executed.iter().filter(|sql| sql.starts_with("INSERT INTO \"__staging_")).count();
    assert_eq!(staged, 2);
    assert_eq!(
        lake.tables["public.users"].rows[129],
        vec![Some("129".to_owned()), Some("[129, NULL]".to_owned())]
    );
}

fn copy_batch(schema: &ReplicatedTableSchema, id: &str, key: i32) -> PreparedDuckLakeCopyBatch {
    prepare_copy_table_batch(
        schema,
        ducklake_table_name(),
        "epoch".to_owned(),
        id.to_owned(),
        vec![row(vec![integer(key), text("copied")])],
    )
}

/// Appends a copy batch to an accumulator. Returns whether it was staged.
fn append_copy(
    lake: &mut Lake,
    accumulator: &mut DuckLakeCopyAccumulator,
    batch: PreparedDuckLakeCopyBatch,
    hooks: &mut DuckLakeTestHooks,
) -> Result<bool, EtlError> {
    let query = match accumulator.begin_append(&batch)? {
        AppendStart::Skip => return Ok(false),
        AppendStart::CheckMarker(query) => query,
    };
    if !lake.run(&query)?.is_empty() {
        return Ok(false);
    }
    let stage = accumulator.stage(batch)?;
    if let Some(statement) = stage.create() {
        lake.run(statement)?;
        accumulator.staging_created(hooks);
    }
    match stage.load() {
        StagingLoad::Append => lake.append("__staging_public.users", stage.rows())?,
        StagingLoad::Execute(statements) => {
            for statement in statements {
                lake.run(statement)?;
            }
        }
    }
    accumulator.staged(stage);
    Ok(true)
}

/// Flushes an accumulator.
fn flush_copy(
    lake: &mut Lake,
    accumulator: &mut DuckLakeCopyAccumulator,
    copy_complete: Option<PreparedDuckLakeTableBatch>,
    hooks: &mut DuckLakeTestHooks,
) -> Result<(), EtlError> {
    let Some(mut flush) = CopyFlush::new(accumulator, &copy_complete) else {
        return Ok(());
    };
    while flush.phase() != FlushPhase::Done {
        let result = match flush.action() {
            FlushAction::Run(statement) => lake.run(statement).map(|_| false),
            FlushAction::Look(query) => lake.run(query).map(|rows| !rows.is_empty()),
            FlushAction::Hook => maybe_fail_after_committed_batch_for_tests(
                hooks,
                DuckLakeTableBatchKind::Copy,
                &ducklake_table_name(),
            )
            .map(|_| false),
            FlushAction::Done => unreachable!("the phase says so"),
        };
        match result {
            Ok(found) => flush.succeeded(found),
            Err(error) => flush.failed(error),
        }
    }
    flush.finish(accumulator)
}

#[test]
fn buffered_copy_commits_rows_and_markers_once() {
    let schema = make_replicated_schema();
    let mut lake = users_lake();
    let mut hooks = DuckLakeTestHooks::new();
    let mut accumulator = DuckLakeCopyAccumulator::new(&copy_batch(&schema, "copy-1", 1));
    assert!(append_copy(&mut lake, &mut accumulator, copy_batch(&schema, "copy-1", 1), &mut hooks)
        .unwrap());
    assert!(append_copy(&mut lake, &mut accumulator, copy_batch(&schema, "copy-2", 2), &mut hooks)
        .unwrap());
    // A batch that is staged already is skipped.
    assert!(!append_copy(&mut lake, &mut accumulator, copy_batch(&schema, "copy-1", 1), &mut hooks)
        .unwrap());
    assert!(accumulator.staged_bytes() > 0);
    assert!(lake.tables["public.users"].rows.is_empty());

    let complete =
        prepare_copy_complete_table_batch(ducklake_table_name(), "epoch".to_owned());
    flush_copy(&mut lake, &mut accumulator, Some(complete), &mut hooks).unwrap();
    assert_eq!(lake.tables["public.users"].rows.len(), 2);
    assert_eq!(lake.tables["__etl_applied_table_batches"].rows.len(), 3);
    assert_eq!(accumulator.staged_bytes(), 0);
    assert!(lake.tables["__staging_public.users"].rows.is_empty());

    // A committed batch is skipped by its marker, and a completed copy keeps one
    // completion marker.
    assert!(!append_copy(&mut lake, &mut accumulator, copy_batch(&schema, "copy-2", 2), &mut hooks)
        .unwrap());
    let complete =
        prepare_copy_complete_table_batch(ducklake_table_name(), "epoch".to_owned());
    flush_copy(&mut lake, &mut accumulator, Some(complete), &mut hooks).unwrap();
    assert_eq!(lake.tables["__etl_applied_table_batches"].rows.len(), 3);
    flush_copy(&mut lake, &mut accumulator, None, &mut hooks).unwrap();
    assert_eq!(lake.tables["public.users"].rows.len(), 2);
}

#[test]
fn buffered_copy_rejects_other_sessions() {
    let schema = make_replicated_schema();
    let mut lake = users_lake();
    let mut hooks = DuckLakeTestHooks::new();
    let mut accumulator = DuckLakeCopyAccumulator::new(&copy_batch(&schema, "copy-1", 1));
    let mut foreign = copy_batch(&schema, "copy-1", 1);
    foreign.batch.replay_epoch = "other".to_owned();
    let error = append_copy(&mut lake, &mut accumulator, foreign, &mut hooks).unwrap_err();
    assert_eq!(
        error.description(),
        "DuckLake buffered copy batch does not match its staging session"
    );
    assert_eq!(error.detail.as_deref(), Some("table=public.users"));

    append_copy(&mut lake, &mut accumulator, copy_batch(&schema, "copy-1", 1), &mut hooks).unwrap();
    let complete =
        prepare_copy_complete_table_batch(ducklake_table_name(), "other".to_owned());
    let error =
        flush_copy(&mut lake, &mut accumulator, Some(complete), &mut hooks).unwrap_err();
    assert_eq!(
        error.description(),
        "DuckLake copy-complete marker does not match its buffered session"
    );
    // The refused flush was rolled back and can be repeated.
    assert!(lake.tables["public.users"].rows.is_empty());
    assert!(accumulator.staged_bytes() > 0);
    flush_copy(&mut lake, &mut accumulator, None, &mut hooks).unwrap();
    assert_eq!(lake.tables["public.users"].rows.len(), 1);
}

#[test]
fn buffered_copy_failures_keep_what_is_staged() {
    let schema = make_replicated_schema();
    for (failing, rolled_back, description) in [
        ("begin transaction", false, "DuckLake buffered copy BEGIN TRANSACTION failed"),
        ("insert into \"lake\"", true, "DuckLake INSERT SELECT failed"),
        ("INSERT INTO lake", true, "DuckLake batch marker insert failed"),
        ("commit", false, "DuckLake buffered copy COMMIT failed"),
        ("truncate", false, "DuckLake staging table clear failed"),
    ] {
        let mut lake = users_lake();
        let mut hooks = DuckLakeTestHooks::new();
        let mut accumulator = DuckLakeCopyAccumulator::new(&copy_batch(&schema, "copy-1", 1));
        append_copy(&mut lake, &mut accumulator, copy_batch(&schema, "copy-1", 1), &mut hooks)
            .unwrap();
        lake.failing = Some(failing.to_owned());
        let error = flush_copy(&mut lake, &mut accumulator, None, &mut hooks).unwrap_err();
        assert_eq!(error.description(), description);
        assert_eq!(lake.executed.iter().any(|sql| sql == "rollback"), rolled_back);
        assert!(accumulator.staged_bytes() > 0);
        if rolled_back {
            assert!(lake.tables["public.users"].rows.is_empty());
        }
    }
}

#[test]
fn buffered_copy_reports_an_armed_failure_after_its_commit() {
    let schema = make_replicated_schema();
    let mut lake = users_lake();
    let mut hooks = DuckLakeTestHooks::new();
    arm_fail_after_copy_batch_commit_once_for_tests(&mut hooks, "public.users");
    let mut accumulator = DuckLakeCopyAccumulator::new(&copy_batch(&schema, "copy-1", 1));
    append_copy(&mut lake, &mut accumulator, copy_batch(&schema, "copy-1", 1), &mut hooks).unwrap();
    let error = flush_copy(&mut lake, &mut accumulator, None, &mut hooks).unwrap_err();
    assert_eq!(error.description(), "DuckLake test hook injected copy post-commit failure");
    assert_eq!(lake.tables["public.users"].rows.len(), 1);
    assert!(accumulator.staged_bytes() > 0);
}

#[test]
fn failing_copy_batch_is_reported_as_it_is() {
    let schema = make_replicated_schema();
    let mut lake = users_lake();
    lake.failing = Some("insert into \"lake\"".to_owned());
    let copies = vec![copy_batch(&schema, "copy-1", 1).into_atomic_batch()];
    let error = lake.apply_batches(&copies, None).unwrap_err();
    assert_eq!(error.description(), "DuckLake INSERT SELECT failed");
    let mut complete = make_prepared_batch(ducklake_table_name());
    complete.batch_kind = DuckLakeTableBatchKind::CopyComplete;
    lake.failing = Some("INSERT INTO lake".to_owned());
    let error = lake.apply_batches(&vec![complete], None).unwrap_err();
    assert_eq!(error.description(), "DuckLake atomic table batch failed");
    assert_eq!(
        error.detail.as_deref(),
        Some("table=public.users, batch_id=test-batch, batch_kind=copy_complete")
    );
    assert_eq!(
        error.cause.unwrap().description(),
        "DuckLake batch marker insert failed"
    );
}

#[test]
fn streaming_batches_without_their_keys_are_refused() {
    let mut lake = users_lake();
    let progress = Some(TableStreamingProgress { last_sequence_key: key_at(5, 0) });
    let batch = |first: Option<EventSequenceKey>, last: Option<EventSequenceKey>| {
        let mut batch = make_prepared_batch(ducklake_table_name());
        batch.first_sequence_key = first;
        batch.last_sequence_key = last;
        vec![batch]
    };
    let error = lake.apply_batches(&batch(None, None), progress).unwrap_err();
    assert_eq!(error.kind(), ErrorKind::InvalidState);
    assert_eq!(
        error.description(),
        "DuckLake streaming batch is missing its first sequence key"
    );
    assert_eq!(error.detail.as_deref(), Some("table=public.users, batch_kind=mutation"));
    let error = lake.apply_batches(&batch(Some(key_at(6, 0)), None), progress).unwrap_err();
    assert_eq!(
        error.description(),
        "DuckLake streaming batch is missing its last sequence key"
    );
    let torn = batch(Some(key_at(4, 0)), Some(key_at(6, 0)));
    let error = lake.apply_batches(&torn, progress).unwrap_err();
    assert_eq!(
        error.description(),
        "DuckLake streaming progress landed inside an atomic batch"
    );
    assert_eq!(
        error.detail.as_deref(),
        Some(
            "table=public.users, progress=0000000000000005/0000000000000000, \
             first=0000000000000004/0000000000000000, last=0000000000000006/0000000000000000"
        )
    );
    // Without a checkpoint to write the batch is rolled back.
    let error = lake.apply_batches(&batch(None, None), None).unwrap_err();
    assert_eq!(
        error.cause.unwrap().description(),
        "DuckLake streaming batch is missing its last sequence key"
    );
    assert!(lake.executed.contains(&ROLLBACK_SQL.to_owned()));
    assert_eq!(lake.apply_batches(&vec![], progress).unwrap(), progress);
}

#[test]
fn copy_batches_are_replayed_by_their_markers() {
    let schema = make_replicated_schema();
    let mut lake = users_lake();
    let copies = || vec![copy_batch(&schema, "copy-1", 1).into_atomic_batch()];
    assert_eq!(lake.apply_batches(&copies(), None).unwrap(), None);
    assert_eq!(lake.apply_batches(&copies(), None).unwrap(), None);
    assert_eq!(lake.tables["public.users"].rows.len(), 1);
    assert_eq!(lake.tables["__etl_applied_table_batches"].rows.len(), 1);
    assert!(lake.tables["__etl_streaming_progress"].rows.is_empty());
}

/// Data files of the table whose keys are spread over files.
const PRUNING_PROOF_FILES: usize = 24;

/// Rows of each of those files.
const PRUNING_PROOF_ROWS_PER_FILE: usize = 50;

/// Counts the data files that a key-set delete has to read, where a file whose
/// least and greatest key fail a bound of the statement is skipped.
fn files_read_by_delete(files: &[Vec<String>], key_set_clause: &str) -> usize {
    let mut parser = Parser::new(key_set_clause);
    parser.words("using");
    Lake::key_relation(&mut parser);
    parser.words("where");
    let terms = parser.conjunction();
    files
        .iter()
        .filter(|keys| {
            let least = keys.iter().min().unwrap();
            let greatest = keys.iter().max().unwrap();
            terms.iter().all(|term| match term {
                Term::Compare(_, operator, Operand::Value(Some(bound))) => {
                    match operator.as_str() {
                        ">=" => greatest >= bound,
                        "<=" => least <= bound,
                        other => panic!("operator {other}"),
                    }
                }
                _ => true,
            })
        })
        .count()
}

#[test]
fn range_predicates_let_ducklake_prune_data_files() {
    let mut lake = Lake::new();
    lake.create("traces", &[("trace_id", "uuid"), ("payload", "varchar")]);
    let mut file_keys: Vec<Vec<String>> = Vec::new();
    for file in 0..PRUNING_PROOF_FILES {
        let keys: Vec<String> = (0..PRUNING_PROOF_ROWS_PER_FILE)
            .map(|row| format!("{file:02x}{row:02x}0000-0000-7000-8000-000000000000"))
            .collect();
        let values = keys
            .iter()
            .enumerate()
            .map(|(row, key)| format!("(CAST('{key}' AS UUID), 'payload-{file}-{row}')"))
            .collect::<Vec<_>>()
            .join(",");
        lake.execute(&format!("insert into lake.traces values {values};")).unwrap();
        file_keys.push(keys);
    }
    let files: Vec<Vec<String>> = file_keys
        .iter()
        .map(|keys| keys.iter().map(|key| format!("CAST('{key}' AS UUID)")).collect())
        .collect();
    assert_eq!(files.len(), PRUNING_PROOF_FILES);

    // Keys taken from one file only, the shape a batch of changes produces on a
    // table with time-ordered keys.
    let schema = ReplicatedTableSchema::new(
        "public.traces",
        vec![
            column("trace_id", TypeKind::Uuid).with_identity(),
            column("payload", TypeKind::Other),
        ],
    );
    let mut key_set = DeleteKeySet::new(&schema);
    for key in file_keys[PRUNING_PROOF_FILES / 2].iter().take(3) {
        let cell = Cell::Value(Scalar::Uuid(uuid::Uuid::parse_str(key).unwrap().as_u128()));
        let literal = cell_to_sql_literal_ref(&cell);
        key_set.push(&vec![KeyComponent::from_cell(&cell, literal)]);
    }
    let pruning_clause = key_set.take_clause().unwrap();
    let unpruned_clause = pruning_clause
        .split(" AND cdc_target.\"trace_id\" >= ")
        .next()
        .expect("the join predicate precedes the range predicates")
        .to_owned();
    assert!(pruning_clause.len() > unpruned_clause.len());

    assert_eq!(files_read_by_delete(&files, &unpruned_clause), PRUNING_PROOF_FILES);
    assert_eq!(files_read_by_delete(&files, &pruning_clause), 1);

    // The pruned delete still removes exactly the three targeted rows.
    lake.execute(&format!("delete from lake.traces as cdc_target {pruning_clause};")).unwrap();
    assert_eq!(
        lake.tables["traces"].rows.len(),
        PRUNING_PROOF_FILES * PRUNING_PROOF_ROWS_PER_FILE - 3
    );
}

/// The position of the users table.
fn users_position(lake: &mut Lake) -> Option<EventSequenceKey> {
    lake.read_progress(&ducklake_table_name(), LEGACY_REPLAY_EPOCH)
        .unwrap()
        .map(|progress| progress.last_sequence_key)
}

fn record_position(lake: &mut Lake, progress_table: &str, lsn: u64) {
    lake.execute(&format!(
        "insert into lake.\"{progress_table}\"
           (table_name, replay_epoch, last_commit_lsn, last_tx_ordinal, updated_at)
           values ('public.users', 'legacy', {lsn}, 0, current_timestamp);"
    ))
    .unwrap();
}

#[test]
fn pipeline_with_its_own_table_appends_to_both() {
    let own = StreamingProgressTable::with_suffix("pipeline_7").unwrap();
    let mut lake = users_lake();
    lake.record_into(own);
    let batches = prepare_mutation_table_batches(
        DuckLakeStreamingBatchConfig::default(),
        &make_replicated_schema(),
        replacement_backlog(3),
    );
    lake.apply_batches(&batches, None).unwrap();

    let progress_rows = |name: &str| lake.tables[name].rows.clone();
    let recorded = progress_rows("__etl_streaming_progress_pipeline_7");
    assert_eq!(recorded.len(), 1);
    assert_eq!(recorded[0][2..4], [Some("100".to_owned()), Some("2".to_owned())]);
    assert_eq!(progress_rows("__etl_streaming_progress"), recorded);
    assert_eq!(users_position(&mut lake), Some(key_at(100, 2)));
}

#[test]
fn position_is_the_later_of_both_tables() {
    for (own_lsn, shared_lsn) in [(300, 200), (200, 300), (300, 300)] {
        let mut lake = users_lake();
        lake.record_into(StreamingProgressTable::with_suffix("x").unwrap());
        record_position(&mut lake, "__etl_streaming_progress_x", own_lsn);
        record_position(&mut lake, "__etl_streaming_progress", shared_lsn);
        assert_eq!(users_position(&mut lake), Some(key_at(300, 0)));
    }
}

#[test]
fn moving_a_pipeline_and_rolling_it_back_keeps_its_position() {
    let schema = make_replicated_schema();
    let config = DuckLakeStreamingBatchConfig::default();
    let batches = |count| prepare_mutation_table_batches(config, &schema, replacement_backlog(count));
    let mut lake = users_lake();
    lake.apply_batches(&batches(3), None).unwrap();

    // Its own table starts out empty.
    lake.record_into(StreamingProgressTable::with_suffix("x").unwrap());
    assert!(lake.tables["__etl_streaming_progress_x"].rows.is_empty());
    assert_eq!(users_position(&mut lake), Some(key_at(100, 2)));
    lake.apply_batches(&batches(3), None).unwrap();
    assert!(lake.tables["__etl_streaming_progress_x"].rows.is_empty());

    let later = vec![TrackedTableMutation::new(
        key_at(200, 0),
        TableMutation::Insert(row(vec![integer(9), text("later")])),
    )];
    lake.apply_batches(&prepare_mutation_table_batches(config, &schema, later), None).unwrap();
    assert_eq!(users_position(&mut lake), Some(key_at(200, 0)));

    // Rolled back, it reads the shared table alone.
    lake.record_into(StreamingProgressTable::default());
    assert_eq!(users_position(&mut lake), Some(key_at(200, 0)));
}

#[test]
fn failed_progress_append_rolls_the_batch_back_in_both_tables() {
    let mut lake = users_lake();
    lake.record_into(StreamingProgressTable::with_suffix("x").unwrap());
    let batches = prepare_mutation_table_batches(
        DuckLakeStreamingBatchConfig::default(),
        &make_replicated_schema(),
        replacement_backlog(3),
    );
    for failing in [
        "INSERT INTO lake.\"__etl_streaming_progress_x\"",
        "INSERT INTO lake.\"__etl_streaming_progress\"",
    ] {
        lake.failing = Some(failing.to_owned());
        lake.apply_batches(&batches, None).unwrap_err();
        lake.failing = None;
        assert!(lake.tables["public.users"].rows.is_empty());
        assert_eq!(users_position(&mut lake), None);
    }
    lake.apply_batches(&batches, None).unwrap();
    assert_eq!(users_position(&mut lake), Some(key_at(100, 2)));
}

#[test]
fn remembered_frontier_is_read_only_while_it_is_unknown() {
    let schema = make_replicated_schema();
    let users = ducklake_table_name();
    let mut progress = StreamingProgress::new(StreamingProgressTable::default());
    let mut lake = users_lake();
    let mut reads = Vec::new();
    // The third commit is not confirmed, so the frontier it left is unknown.
    for (index, confirmed) in [true, true, false, true, true].into_iter().enumerate() {
        let event = TrackedTableMutation::new(
            key_at(100, index as u64),
            TableMutation::Replace(row(vec![integer(1), text("v")])),
        );
        let batches = prepare_mutation_table_batches(
            DuckLakeStreamingBatchConfig::default(),
            &schema,
            vec![event],
        );
        let frontier = progress.attempt_started(&users, LEGACY_REPLAY_EPOCH);
        assert_eq!(progress.cache().get(&users, LEGACY_REPLAY_EPOCH), None);
        let replay = BatchReplay::for_frontier(&batches, frontier);
        reads.push(replay.phase() == ReplayPhase::ReadProgress);
        let left = lake.drive(replay, &batches, &mut DuckLakeTestHooks::new()).unwrap();
        let left = left.map(|progress| progress.last_sequence_key);
        assert_eq!(left, Some(key_at(100, index as u64)));
        let confirmed = if confirmed { Some(left) } else { None };
        progress.attempt_ended(&users, LEGACY_REPLAY_EPOCH, confirmed);
        assert_eq!(progress.cache().get(&users, LEGACY_REPLAY_EPOCH), confirmed);
    }
    assert_eq!(reads, [true, false, false, true, false]);
    assert_eq!(progress.attempt_started(&users, "next"), None);
}

#[test]
fn table_known_to_have_no_progress_is_not_read() {
    let batches = prepare_mutation_table_batches(
        DuckLakeStreamingBatchConfig::default(),
        &make_replicated_schema(),
        replacement_backlog(1),
    );
    assert_eq!(BatchReplay::for_frontier(&batches, None).phase(), ReplayPhase::ReadProgress);
    assert_eq!(BatchReplay::for_frontier(&batches, Some(None)).phase(), ReplayPhase::Apply(0));
    let committed = BatchReplay::for_frontier(&batches, Some(Some(key_at(100, 0))));
    assert_eq!(committed.phase(), ReplayPhase::Done);
}

#[test]
fn only_staging_tables_that_were_created_are_counted() {
    let schema = make_replicated_schema();
    let mut lake = users_lake();
    let mut hooks = DuckLakeTestHooks::new();
    let batches = prepare_mutation_table_batches(
        DuckLakeStreamingBatchConfig::default(),
        &schema,
        replacement_backlog(3),
    );
    lake.failing = Some("create or replace".to_owned());
    lake.apply_batch(&batches[0], &mut hooks).unwrap_err();
    assert_eq!(ducklake_staging_table_creations_for_tests(&hooks, "public.users"), 0);
    lake.failing = None;
    lake.apply_batch(&batches[0], &mut hooks).unwrap();
    assert_eq!(ducklake_staging_table_creations_for_tests(&hooks, "public.users"), 1);

    let mut accumulator = DuckLakeCopyAccumulator::new(&copy_batch(&schema, "copy-1", 1));
    lake.failing = Some("create or replace".to_owned());
    append_copy(&mut lake, &mut accumulator, copy_batch(&schema, "copy-1", 1), &mut hooks)
        .unwrap_err();
    assert_eq!(ducklake_staging_table_creations_for_tests(&hooks, "public.users"), 1);
    lake.failing = None;
    for (id, key) in [("copy-1", 1), ("copy-2", 2)] {
        append_copy(&mut lake, &mut accumulator, copy_batch(&schema, id, key), &mut hooks)
            .unwrap();
        assert_eq!(ducklake_staging_table_creations_for_tests(&hooks, "public.users"), 2);
    }
}

#[test]
fn later_backlog_is_completed_whatever_was_committed_of_it() {
    let schema = make_replicated_schema();
    let config = DuckLakeStreamingBatchConfig::new(2, 1024 * 1024).unwrap();
    let backlog = |lsn: u64| {
        let events = (0..6).map(|index| {
            TrackedTableMutation::new(
                key_at(lsn, index),
                TableMutation::Insert(row(vec![integer(index as i32), text(&format!("at-{lsn}"))])),
            )
        });
        prepare_mutation_table_batches(config, &schema, events.collect())
    };
    for done in 0..=3 {
        for remembered in [false, true] {
            let mut lake = users_lake();
            lake.apply_batches(&backlog(100), None).unwrap();
            let prefix: Vec<PreparedDuckLakeTableBatch> =
                backlog(200).into_iter().take(done).collect();
            lake.apply_batches(&prefix, None).unwrap();

            let batches = backlog(200);
            let frontier = if remembered { Some(users_position(&mut lake)) } else { None };
            let replay = BatchReplay::for_frontier(&batches, frontier);
            let left = lake.drive(replay, &batches, &mut DuckLakeTestHooks::new()).unwrap();
            assert_eq!(left.map(|progress| progress.last_sequence_key), Some(key_at(200, 5)));
            assert_eq!(users_position(&mut lake), Some(key_at(200, 5)));
            // Inserts do not replace, so each event left one row.
            assert_eq!(lake.tables["public.users"].rows.len(), 12);
        }
    }
}

#[test]
fn copy_is_completed_whatever_was_committed_of_it() {
    let schema = make_replicated_schema();
    let copies = |keys: &[i32]| {
        keys.iter()
            .map(|key| copy_batch(&schema, &format!("copy-{key}"), *key).into_atomic_batch())
            .collect::<Vec<_>>()
    };
    for committed in [vec![], vec![1], vec![2], vec![3, 1], vec![1, 2, 3]] {
        let mut lake = users_lake();
        lake.apply_batches(&copies(&committed), None).unwrap();
        for _ in 0..2 {
            lake.apply_batches(&copies(&[1, 2, 3]), None).unwrap();
            assert_eq!(lake.tables["public.users"].rows.len(), 3);
            assert_eq!(lake.tables["__etl_applied_table_batches"].rows.len(), 3);
        }
        // Markers of one epoch say nothing of another.
        let mut other = copies(&[1]);
        other[0].replay_epoch = "other".to_owned();
        assert!(!lake.marker_exists(&other[0]).unwrap());
        lake.apply_batches(&other, None).unwrap();
        assert!(lake.marker_exists(&other[0]).unwrap());
        assert_eq!(lake.tables["public.users"].rows.len(), 4);
    }
}
