//! Hrana protocol types.

use crate::error::Failure;
use vstd::prelude::*;

verus! {

#[derive(Debug, PartialEq, Eq)]
pub struct PipelineReqBody {
    pub baton: Option<String>,
    pub requests: Vec<StreamRequest>,
}

#[derive(Debug, PartialEq, Eq)]
pub struct PipelineRespBody {
    pub baton: Option<String>,
    pub base_url: Option<String>,
    pub results: Vec<StreamResult>,
}

#[derive(Debug, PartialEq, Eq)]
pub enum StreamResult {
    Empty,
    Success { response: StreamResponse },
    Error { error: Error },
}

#[derive(Debug, PartialEq, Eq)]
pub enum StreamRequest {
    Empty,
    Close(CloseStreamReq),
    Execute(ExecuteStreamReq),
    Batch(BatchStreamReq),
    Sequence(SequenceStreamReq),
    Describe(DescribeStreamReq),
    StoreSql(StoreSqlStreamReq),
    CloseSql(CloseSqlStreamReq),
    GetAutocommit(GetAutocommitStreamReq),
}

#[derive(Debug, PartialEq, Eq)]
pub enum StreamResponse {
    Close(CloseStreamResp),
    Execute(ExecuteStreamResp),
    Batch(BatchStreamResp),
    Sequence(SequenceStreamResp),
    Describe(DescribeStreamResp),
    StoreSql(StoreSqlStreamResp),
    CloseSql(CloseSqlStreamResp),
    GetAutocommit(GetAutocommitStreamResp),
}

#[derive(Clone, Copy, Debug, PartialEq, Eq, Structural)]
pub struct CloseStreamReq {}

#[derive(Clone, Copy, Debug, PartialEq, Eq, Structural)]
pub struct CloseStreamResp {}

#[derive(Debug, PartialEq, Eq)]
pub struct ExecuteStreamReq {
    pub stmt: Stmt,
}

#[derive(Debug, PartialEq, Eq)]
pub struct ExecuteStreamResp {
    pub result: StmtResult,
}

#[derive(Debug, PartialEq, Eq)]
pub struct BatchStreamReq {
    pub batch: Batch,
}

#[derive(Debug, PartialEq, Eq)]
pub struct BatchStreamResp {
    pub result: BatchResult,
}

#[derive(Debug, PartialEq, Eq)]
pub struct SequenceStreamReq {
    pub sql: Option<String>,
    pub sql_id: Option<i32>,
    pub replication_index: Option<u64>,
}

#[derive(Clone, Copy, Debug, PartialEq, Eq, Structural)]
pub struct SequenceStreamResp {}

#[derive(Debug, PartialEq, Eq)]
pub struct DescribeStreamReq {
    pub sql: Option<String>,
    pub sql_id: Option<i32>,
    pub replication_index: Option<u64>,
}

#[derive(Debug, PartialEq, Eq)]
pub struct DescribeStreamResp {
    pub result: DescribeResult,
}

#[derive(Debug, PartialEq, Eq)]
pub struct StoreSqlStreamReq {
    pub sql_id: i32,
    pub sql: String,
}

#[derive(Clone, Copy, Debug, PartialEq, Eq, Structural)]
pub struct StoreSqlStreamResp {}

#[derive(Clone, Copy, Debug, PartialEq, Eq, Structural)]
pub struct CloseSqlStreamReq {
    pub sql_id: i32,
}

#[derive(Clone, Copy, Debug, PartialEq, Eq, Structural)]
pub struct CloseSqlStreamResp {}

#[derive(Clone, Copy, Debug, PartialEq, Eq, Structural)]
pub struct GetAutocommitStreamReq {}

#[derive(Clone, Copy, Debug, PartialEq, Eq, Structural)]
pub struct GetAutocommitStreamResp {
    pub is_autocommit: bool,
}

#[derive(Debug, PartialEq, Eq)]
pub struct Error {
    pub message: String,
    pub code: String,
}

impl View for Error {
    type V = Failure;

    open spec fn view(&self) -> Failure {
        Failure { code: self.code@, message: self.message@ }
    }
}

#[derive(Debug, PartialEq, Eq)]
pub struct Stmt {
    pub sql: Option<String>,
    pub sql_id: Option<i32>,
    pub args: Vec<Value>,
    pub named_args: Vec<NamedArg>,
    pub want_rows: Option<bool>,
    pub replication_index: Option<u64>,
}

impl Stmt {
    pub fn new(sql: &str, want_rows: bool) -> (r: Self)
        ensures
            r.sql matches Some(s) && s@ == sql@,
            r.sql_id is None,
            r.args@.len() == 0,
            r.named_args@.len() == 0,
            r.want_rows == Some(want_rows),
            r.replication_index is None,
    {
        Stmt {
            sql: Some(sql.to_owned()),
            sql_id: None,
            args: Vec::new(),
            named_args: Vec::new(),
            want_rows: Some(want_rows),
            replication_index: None,
        }
    }
}

#[derive(Debug, PartialEq, Eq)]
pub struct NamedArg {
    pub name: String,
    pub value: Value,
}

#[derive(Debug, PartialEq, Eq)]
pub struct StmtResult {
    pub cols: Vec<Col>,
    pub rows: Vec<Row>,
    pub affected_row_count: u64,
    pub last_insert_rowid: Option<i64>,
    pub replication_index: Option<u64>,
    pub rows_read: u64,
    pub rows_written: u64,
    /// The IEEE 754 bits of a double.
    pub query_duration_ms: u64,
}

#[derive(Debug, PartialEq, Eq)]
pub struct Col {
    pub name: Option<String>,
    pub decltype: Option<String>,
}

#[derive(Debug, PartialEq, Eq)]
pub struct Row {
    pub values: Vec<Value>,
}

#[derive(Debug, PartialEq, Eq)]
pub struct Batch {
    pub steps: Vec<BatchStep>,
    pub replication_index: Option<u64>,
}

#[derive(Debug, PartialEq, Eq)]
pub struct BatchStep {
    pub condition: Option<BatchCond>,
    pub stmt: Stmt,
}

#[derive(Debug, PartialEq, Eq)]
pub struct BatchResult {
    pub step_results: Vec<Option<StmtResult>>,
    pub step_errors: Vec<Option<Error>>,
    pub replication_index: Option<u64>,
}

#[derive(Debug, PartialEq, Eq)]
pub enum BatchCond {
    Empty,
    Succeeded { step: u32 },
    Failed { step: u32 },
    Not { cond: Box<BatchCond> },
    And(BatchCondList),
    Or(BatchCondList),
    IsAutocommit {},
}

#[derive(Debug, PartialEq, Eq)]
pub struct BatchCondList {
    pub conds: Vec<BatchCond>,
}

#[derive(Debug, PartialEq, Eq)]
pub struct DescribeResult {
    pub params: Vec<DescribeParam>,
    pub cols: Vec<DescribeCol>,
    pub is_explain: bool,
    pub is_readonly: bool,
}

#[derive(Debug, PartialEq, Eq)]
pub struct DescribeParam {
    pub name: Option<String>,
}

#[derive(Debug, PartialEq, Eq)]
pub struct DescribeCol {
    pub name: String,
    pub decltype: Option<String>,
}

#[derive(Debug, PartialEq, Eq)]
pub enum Value {
    Unset,
    Null,
    Integer { value: i64 },
    /// The IEEE 754 bits of a double.
    Float { value: u64 },
    Text { value: String },
    Blob { value: Vec<u8> },
}

/// A Hrana value, mathematically.
#[verifier::ext_equal]
pub enum Datum {
    Unset,
    Null,
    Integer(i64),
    Float(u64),
    Text(Seq<char>),
    Blob(Seq<u8>),
}

impl View for Value {
    type V = Datum;

    open spec fn view(&self) -> Datum {
        match self {
            Value::Unset => Datum::Unset,
            Value::Null => Datum::Null,
            Value::Integer { value } => Datum::Integer(*value),
            Value::Float { value } => Datum::Float(*value),
            Value::Text { value } => Datum::Text(value@),
            Value::Blob { value } => Datum::Blob(value@),
        }
    }
}

impl Value {
    pub fn null() -> (r: Self)
        ensures
            r@ == Datum::Null,
    {
        Value::Null
    }

    pub fn integer(v: i64) -> (r: Self)
        ensures
            r@ == Datum::Integer(v),
    {
        Value::Integer { value: v }
    }

    /// A double, given by its IEEE 754 bits.
    pub fn float(bits: u64) -> (r: Self)
        ensures
            r@ == Datum::Float(bits),
    {
        Value::Float { value: bits }
    }

    pub fn text(v: &str) -> (r: Self)
        ensures
            r@ == Datum::Text(v@),
    {
        Value::Text { value: v.to_owned() }
    }

    pub fn blob(v: Vec<u8>) -> (r: Self)
        ensures
            r@ == Datum::Blob(v@),
    {
        Value::Blob { value: v }
    }
}

} // verus!
