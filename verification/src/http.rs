//! HTTP requests: which namespace they mean, and the legacy query endpoint.

use crate::error::{AppError, Refusal, StmtError};
use crate::executor::StmtArgs;
use crate::hrana::blob::{base64, base64_bytes, decode_base64, encode_base64};
use crate::hrana::proto::{Col, Datum, NamedArg, Row, StmtResult, Value};
use crate::model::{group_views, views};
use crate::namespace::{fault_text, name_fault, NamespaceName};
use crate::text::{same_text, text_of};
use vstd::prelude::*;

verus! {

broadcast use group_views;

// ---------------------------------------------------------------------------
// Namespaces
// ---------------------------------------------------------------------------

/// A byte that a header's text is made of: visible ASCII, a space or a tab.
pub open spec fn is_header_byte(b: u8) -> bool {
    32 <= b < 127 || b == 9
}

/// The text of a header, if it is one.
pub open spec fn header_text(bytes: Seq<u8>) -> Option<Seq<char>> {
    if forall|i: int| 0 <= i < bytes.len() ==> is_header_byte(#[trigger] bytes[i]) {
        Some(bytes.map_values(|b: u8| b as char))
    } else {
        None
    }
}

pub fn read_header(bytes: &[u8]) -> (r: Option<String>)
    ensures
        match header_text(bytes@) {
            Some(s) => r is Some && r->0@ == s,
            None => r is None,
        },
{
    let mut chars: Vec<char> = Vec::new();
    let mut i: usize = 0;
    while i < bytes.len()
        invariant
            i <= bytes@.len(),
            chars@.len() == i,
            forall|k: int| 0 <= k < i ==> is_header_byte(#[trigger] bytes@[k]),
            forall|k: int| 0 <= k < i ==> #[trigger] chars@[k] == bytes@[k] as char,
        decreases bytes@.len() - i,
    {
        let b: u8 = bytes[i];
        if !((b >= 32 && b < 127) || b == 9) {
            assert(!is_header_byte(bytes@[i as int]));
            return None;
        }
        chars.push(b as char);
        i = i + 1;
    }
    assert(chars@ =~= bytes@.map_values(|b: u8| b as char));
    Some(text_of(chars.as_slice()))
}

/// What a client is told that names no namespace.
pub open spec fn name_refusal(name: Seq<char>) -> Option<Refusal> {
    match name_fault(name) {
        Some(e) => Some(
            Refusal { status: 400, code: "INVALID_NAMESPACE"@, message: fault_text(e, name) },
        ),
        None => None,
    }
}

/// The namespace of a route's path.
pub fn path_namespace(raw: String) -> (r: Result<NamespaceName, AppError>)
    ensures
        match name_refusal(raw@) {
            Some(f) => r is Err && r->Err_0@ == f,
            None => r is Ok && r->Ok_0@ == raw@ && r->Ok_0.wf(),
        },
{
    let text = raw.clone();
    match NamespaceName::from_string(raw) {
        Ok(name) => Ok(name),
        Err(e) => {
            let message = e.message(text.as_str());
            Err(AppError::bad_request("INVALID_NAMESPACE", message.as_str()))
        },
    }
}

/// What a replica is told that names no namespace.
pub open spec fn sync_refusal(name: Seq<char>) -> Option<Refusal> {
    match name_fault(name) {
        Some(e) => Some(
            Refusal { status: 500, code: "INTERNAL_ERROR"@, message: fault_text(e, name) },
        ),
        None => None,
    }
}

/// The namespace of a sync route's path: a name that is none is an internal
/// error there.
pub fn sync_namespace(raw: String) -> (r: Result<NamespaceName, AppError>)
    ensures
        match sync_refusal(raw@) {
            Some(f) => r is Err && r->Err_0@ == f,
            None => r is Ok && r->Ok_0@ == raw@ && r->Ok_0.wf(),
        },
{
    let text = raw.clone();
    match NamespaceName::from_string(raw) {
        Ok(name) => Ok(name),
        Err(e) => {
            let message = e.message(text.as_str());
            Err(AppError::internal(message.as_str()))
        },
    }
}

/// The namespace that a user's request means, and whether it is created on
/// demand.
#[derive(Debug, PartialEq, Eq)]
pub enum Wanted {
    /// One that must exist.
    Existing(NamespaceName),
    /// The default one, created where it is not there.
    Default(NamespaceName),
}

/// The namespace that a user's request means, mathematically.
#[verifier::ext_equal]
pub enum Meant {
    Existing(Seq<char>),
    Default(Seq<char>),
}

/// The namespace that a request with that header means, or why it is refused.
pub open spec fn meant(header: Option<Seq<u8>>) -> Result<Meant, Refusal> {
    match header {
        None => Ok(Meant::Default("default"@)),
        Some(bytes) => match header_text(bytes) {
            None => Err(
                Refusal {
                    status: 400,
                    code: "INVALID_NAMESPACE"@,
                    message: "x-namespace header must be valid UTF-8"@,
                },
            ),
            Some(name) => match name_refusal(name) {
                Some(f) => Err(f),
                None => Ok(Meant::Existing(name)),
            },
        },
    }
}

/// Namespace from the `x-namespace` header; requests without the header go to
/// the default namespace (created on demand). Explicit namespaces must exist.
pub fn namespace_from_request(header: Option<&[u8]>) -> (r: Result<Wanted, AppError>)
    ensures
        match meant(
            match header {
                Some(bytes) => Some(bytes@),
                None => None,
            },
        ) {
            Ok(Meant::Default(name)) => r is Ok && r->Ok_0 is Default && r->Ok_0->Default_0@ == name
                && r->Ok_0->Default_0.wf(),
            Ok(Meant::Existing(name)) => r is Ok && r->Ok_0 is Existing && r->Ok_0->Existing_0@
                == name && r->Ok_0->Existing_0.wf(),
            Err(f) => r is Err && r->Err_0@ == f,
        },
{
    match header {
        None => Ok(Wanted::Default(NamespaceName::default())),
        Some(bytes) => match read_header(bytes) {
            None => Err(
                AppError::bad_request(
                    "INVALID_NAMESPACE",
                    "x-namespace header must be valid UTF-8",
                ),
            ),
            Some(name) => match path_namespace(name) {
                Ok(name) => Ok(Wanted::Existing(name)),
                Err(e) => Err(e),
            },
        },
    }
}

/// What a client is told of a namespace that is not there.
pub open spec fn missing(name: Seq<char>) -> Refusal {
    Refusal {
        status: 404,
        code: "NOT_FOUND"@,
        message: "namespace "@ + name + " does not exist"@,
    }
}

/// The answer for a namespace that is not there.
pub fn namespace_missing(name: &NamespaceName) -> (r: AppError)
    ensures
        r@ == missing(name@),
{
    let mut message = "namespace ".to_owned();
    message.append(name.as_str());
    message.append(" does not exist");
    AppError::not_found(message.as_str())
}

/// Why a namespace cannot be created, if it cannot.
pub open spec fn taken(name: Seq<char>, exists: bool) -> Option<Refusal> {
    if exists {
        Some(
            Refusal {
                status: 409,
                code: "NAMESPACE_EXISTS"@,
                message: "namespace "@ + name + " already exists"@,
            },
        )
    } else {
        None
    }
}

/// Whether a namespace may be created: one that exists already is a conflict.
pub fn may_create(name: &NamespaceName, exists: bool) -> (r: Result<(), AppError>)
    ensures
        match taken(name@, exists) {
            Some(f) => r is Err && r->Err_0@ == f,
            None => r is Ok,
        },
{
    if exists {
        let mut message = "namespace ".to_owned();
        message.append(name.as_str());
        message.append(" already exists");
        return Err(AppError::conflict("NAMESPACE_EXISTS", message.as_str()));
    }
    Ok(())
}

// ---------------------------------------------------------------------------
// JSON values
// ---------------------------------------------------------------------------

/// A JSON value. A number is an integer where it fits one, else a double given
/// by its IEEE 754 bits.
#[derive(Debug, PartialEq, Eq)]
pub enum Json {
    Null,
    Bool(bool),
    Integer(i64),
    Real(u64),
    Text(String),
    Array(Vec<Json>),
    Object(Vec<(String, Json)>),
}

/// Where a member of that name first stands; the number of members where none
/// has it.
pub open spec fn member(members: Seq<(String, Json)>, name: Seq<char>) -> nat
    decreases members.len(),
{
    if members.len() == 0 || members[0].0@ == name {
        0
    } else {
        1 + member(members.skip(1), name)
    }
}

/// A binary value, or null where the text for it was none.
pub open spec fn blob_or_null(decoded: Option<Seq<u8>>) -> Datum {
    match decoded {
        Some(bytes) => Datum::Blob(bytes),
        None => Datum::Null,
    }
}

/// The SQL value that a JSON value of a legacy request stands for. An object
/// is a binary value where its member `base64` is a text that decodes.
pub open spec fn legacy_datum(v: Json) -> Datum {
    match v {
        Json::Null => Datum::Null,
        Json::Bool(b) => Datum::Integer(
            if b {
                1
            } else {
                0
            },
        ),
        Json::Integer(i) => Datum::Integer(i),
        Json::Real(bits) => Datum::Float(bits),
        Json::Text(s) => Datum::Text(s@),
        Json::Array(_) => Datum::Null,
        Json::Object(members) => {
            let at = member(members@, "base64"@);
            if at < members@.len() {
                match members@[at as int].1 {
                    Json::Text(text) => blob_or_null(base64_bytes(text@)),
                    _ => Datum::Null,
                }
            } else {
                Datum::Null
            }
        },
    }
}

fn find_member(members: &Vec<(String, Json)>, name: &str) -> (r: Option<usize>)
    ensures
        match r {
            Some(i) => i == member(members@, name@) && i < members@.len(),
            None => member(members@, name@) == members@.len(),
        },
{
    let ghost all = members@;
    let mut i: usize = 0;
    assert(all.skip(0) =~= all);
    while i < members.len()
        invariant
            i <= members@.len(),
            all == members@,
            i + member(all.skip(i as int), name@) == member(all, name@),
        decreases members@.len() - i,
    {
        assert(all.skip(i as int)[0] == members@[i as int]);
        if same_text(members[i].0.as_str(), name) {
            return Some(i);
        }
        assert(all.skip(i as int).skip(1) =~= all.skip(i + 1));
        i = i + 1;
    }
    None
}

/// The value that bytes decoded from a legacy request make.
pub fn decoded_value(decoded: Option<Vec<u8>>) -> (r: Value)
    ensures
        r@ == blob_or_null(
            match decoded {
                Some(bytes) => Some(bytes@),
                None => None,
            },
        ),
{
    match decoded {
        Some(bytes) => Value::blob(bytes),
        None => Value::null(),
    }
}

/// The SQL value that a JSON value of a legacy request stands for.
pub fn legacy_value_to_hrana(v: &Json) -> (r: Value)
    ensures
        r@ == legacy_datum(*v),
{
    match v {
        Json::Null => Value::null(),
        Json::Bool(b) => Value::integer(
            if *b {
                1
            } else {
                0
            },
        ),
        Json::Integer(i) => Value::integer(*i),
        Json::Real(bits) => Value::float(*bits),
        Json::Text(s) => Value::text(s.as_str()),
        Json::Array(_) => Value::null(),
        Json::Object(members) => match find_member(members, "base64") {
            Some(i) => match &members[i].1 {
                Json::Text(text) => decoded_value(decode_base64(text.as_str())),
                _ => Value::null(),
            },
            None => Value::null(),
        },
    }
}

/// Whether a JSON value is how a legacy response shows a SQL value.
pub open spec fn shows(j: Json, v: Datum) -> bool {
    match v {
        Datum::Unset => j is Null,
        Datum::Null => j is Null,
        Datum::Integer(i) => j == Json::Integer(i),
        Datum::Float(bits) => j == Json::Real(bits),
        Datum::Text(s) => j is Text && j->Text_0@ == s,
        Datum::Blob(b) => {
            &&& j is Object
            &&& j->Object_0@.len() == 1
            &&& j->Object_0@[0].0@ == "base64"@
            &&& j->Object_0@[0].1 is Text
            &&& j->Object_0@[0].1->Text_0@ == base64(b)
        },
    }
}

/// Whether a binary value's text fits in memory.
pub open spec fn blob_fits(v: Datum) -> bool {
    v matches Datum::Blob(b) ==> b.len() <= isize::MAX / 2
}

/// How a legacy response shows a SQL value. A value that is shown and sent
/// back is the same value.
pub fn hrana_value_to_json(v: &Value) -> (r: Json)
    requires
        blob_fits(v@),
    ensures
        shows(r, v@),
        v@ !is Unset ==> legacy_datum(r) == v@,
{
    match v {
        Value::Unset => Json::Null,
        Value::Null => Json::Null,
        Value::Integer { value } => Json::Integer(*value),
        Value::Float { value } => Json::Real(*value),
        Value::Text { value } => Json::Text(value.clone()),
        Value::Blob { value } => {
            let mut members: Vec<(String, Json)> = Vec::new();
            members.push(("base64".to_owned(), Json::Text(encode_base64(value.as_slice()))));
            Json::Object(members)
        },
    }
}

// ---------------------------------------------------------------------------
// Legacy v1 endpoint
// ---------------------------------------------------------------------------

/// The arguments of a legacy statement.
#[derive(Debug, PartialEq, Eq)]
pub enum LegacyParams {
    Positional(Vec<Json>),
    Named(Vec<(String, Json)>),
}

/// One statement of a legacy request.
#[derive(Debug, PartialEq, Eq)]
pub struct LegacyStatement {
    pub q: String,
    pub params: LegacyParams,
}

/// What a legacy statement gave.
#[derive(Debug, PartialEq, Eq)]
pub struct LegacyRows {
    pub columns: Vec<String>,
    pub rows: Vec<Vec<Json>>,
}

/// Whether these are the arguments that a legacy statement gives.
pub open spec fn are_args(args: Seq<Value>, named: Seq<NamedArg>, params: LegacyParams) -> bool {
    match params {
        LegacyParams::Positional(values) => {
            &&& named.len() == 0
            &&& args.len() == values@.len()
            &&& forall|i: int|
                0 <= i < args.len() ==> (#[trigger] args[i])@ == legacy_datum(values@[i])
        },
        LegacyParams::Named(values) => {
            &&& args.len() == 0
            &&& named.len() == values@.len()
            &&& forall|i: int|
                0 <= i < named.len() ==> (#[trigger] named[i]).name@ == values@[i].0@
                    && named[i].value@ == legacy_datum(values@[i].1)
        },
    }
}

/// The arguments that a legacy statement gives.
pub fn legacy_args(params: &LegacyParams) -> (r: StmtArgs)
    ensures
        are_args(r.args@, r.named_args@, *params),
{
    let mut args: Vec<Value> = Vec::new();
    let mut named_args: Vec<NamedArg> = Vec::new();
    match params {
        LegacyParams::Positional(values) => {
            let mut i: usize = 0;
            while i < values.len()
                invariant
                    i <= values@.len(),
                    args@.len() == i,
                    forall|k: int|
                        0 <= k < i ==> (#[trigger] args@[k])@ == legacy_datum(values@[k]),
                decreases values@.len() - i,
            {
                args.push(legacy_value_to_hrana(&values[i]));
                i = i + 1;
            }
        },
        LegacyParams::Named(values) => {
            let mut i: usize = 0;
            while i < values.len()
                invariant
                    i <= values@.len(),
                    named_args@.len() == i,
                    forall|k: int|
                        0 <= k < i ==> (#[trigger] named_args@[k]).name@ == values@[k].0@
                            && named_args@[k].value@ == legacy_datum(values@[k].1),
                decreases values@.len() - i,
            {
                named_args.push(
                    NamedArg {
                        name: values[i].0.clone(),
                        value: legacy_value_to_hrana(&values[i].1),
                    },
                );
                i = i + 1;
            }
        },
    }
    StmtArgs { args, named_args }
}

/// A column's name, or the empty text where it has none.
pub open spec fn column_name(col: Col) -> Seq<char> {
    match col.name {
        Some(name) => name@,
        None => seq![],
    }
}

pub open spec fn shows_row(shown: Seq<Json>, row: Seq<Value>) -> bool {
    &&& shown.len() == row.len()
    &&& forall|i: int| 0 <= i < row.len() ==> shows(#[trigger] shown[i], row[i]@)
}

/// Whether a legacy result shows what a statement gave.
pub open spec fn shows_result(shown: LegacyRows, result: StmtResult) -> bool {
    &&& views(shown.columns@) == result.cols@.map_values(|c: Col| column_name(c))
    &&& shown.rows@.len() == result.rows@.len()
    &&& forall|i: int|
        0 <= i < result.rows@.len() ==> shows_row(
            (#[trigger] shown.rows@[i])@,
            result.rows@[i].values@,
        )
}

/// Whether the text of every binary value among them fits in memory.
pub open spec fn result_fits(result: StmtResult) -> bool {
    forall|i: int, j: int|
        0 <= i < result.rows@.len() && 0 <= j < result.rows@[i].values@.len() ==> blob_fits(
            (#[trigger] result.rows@[i].values@[j])@,
        )
}

fn row_to_json(row: &Row) -> (r: Vec<Json>)
    requires
        forall|j: int| 0 <= j < row.values@.len() ==> blob_fits((#[trigger] row.values@[j])@),
    ensures
        shows_row(r@, row.values@),
{
    let mut r: Vec<Json> = Vec::new();
    let mut i: usize = 0;
    while i < row.values.len()
        invariant
            i <= row.values@.len(),
            r@.len() == i,
            forall|j: int| 0 <= j < row.values@.len() ==> blob_fits((#[trigger] row.values@[j])@),
            forall|k: int| 0 <= k < i ==> shows(#[trigger] r@[k], row.values@[k]@),
        decreases row.values@.len() - i,
    {
        assert(blob_fits(row.values@[i as int]@));
        r.push(hrana_value_to_json(&row.values[i]));
        i = i + 1;
    }
    r
}

/// Shows what a statement gave.
pub fn legacy_rows(result: &StmtResult) -> (r: LegacyRows)
    requires
        result_fits(*result),
    ensures
        shows_result(r, *result),
{
    let mut columns: Vec<String> = Vec::new();
    let mut i: usize = 0;
    while i < result.cols.len()
        invariant
            i <= result.cols@.len(),
            columns@.len() == i,
            forall|k: int|
                0 <= k < i ==> (#[trigger] columns@[k])@ == column_name(result.cols@[k]),
        decreases result.cols@.len() - i,
    {
        let name: String = match &result.cols[i].name {
            Some(name) => name.clone(),
            None => String::new(),
        };
        assert(name@ =~= column_name(result.cols@[i as int]));
        columns.push(name);
        i = i + 1;
    }
    assert(views(columns@) =~= result.cols@.map_values(|c: Col| column_name(c)));
    let mut rows: Vec<Vec<Json>> = Vec::new();
    let mut j: usize = 0;
    while j < result.rows.len()
        invariant
            j <= result.rows@.len(),
            rows@.len() == j,
            result_fits(*result),
            forall|k: int|
                0 <= k < j ==> shows_row((#[trigger] rows@[k])@, result.rows@[k].values@),
        decreases result.rows@.len() - j,
    {
        assert forall|k: int| 0 <= k < result.rows@[j as int].values@.len() implies blob_fits(
            (#[trigger] result.rows@[j as int].values@[k])@,
        ) by {}
        rows.push(row_to_json(&result.rows[j]));
        j = j + 1;
    }
    LegacyRows { columns, rows }
}

/// Where a legacy request stands.
#[derive(Clone, Copy, Debug, PartialEq, Eq, Structural)]
pub enum Stage {
    /// Nothing is done yet.
    Start,
    /// The transaction around several statements is being opened.
    Opening,
    /// A statement is being run.
    Running,
    /// The transaction is being committed.
    Committing,
    /// The transaction is being rolled back.
    RollingBack,
    Finished,
}

/// What is to be done for a legacy request.
#[derive(Debug, PartialEq, Eq)]
pub enum LegacyAction {
    /// To run a statement of the server's own.
    Control(&'static str),
    /// To run one of the request's statements.
    Execute { sql: String, args: StmtArgs },
    /// Nothing more.
    Finish,
}

/// The statements of one legacy request. Several run in one transaction, which
/// is rolled back where one of them fails.
pub struct LegacyRun {
    /// The statement to come is the last.
    todo: Vec<LegacyStatement>,
    multi: bool,
    open: bool,
    results: Vec<LegacyRows>,
    error: Option<AppError>,
    stage: Stage,
}

/// The state of a legacy request.
#[verifier::ext_equal]
pub struct Legacy {
    /// The statements that are left.
    pub todo: Seq<LegacyStatement>,
    pub multi: bool,
    /// Whether the transaction around several statements was opened.
    pub open: bool,
    pub results: Seq<LegacyRows>,
    pub error: Option<Refusal>,
    pub stage: Stage,
}

impl View for LegacyRun {
    type V = Legacy;

    closed spec fn view(&self) -> Legacy {
        Legacy {
            todo: self.todo@.reverse(),
            multi: self.multi,
            open: self.open,
            results: self.results@,
            error: match self.error {
                Some(e) => Some(e@),
                None => None,
            },
            stage: self.stage,
        }
    }
}

impl Legacy {
    /// A request of which nothing is done yet.
    pub open spec fn fresh(statements: Seq<LegacyStatement>) -> Legacy {
        Legacy {
            todo: statements,
            multi: statements.len() > 1,
            open: false,
            results: seq![],
            error: None,
            stage: Stage::Start,
        }
    }

    /// The answer of a request that is over.
    pub open spec fn answer(self) -> Result<Seq<LegacyRows>, Refusal> {
        match self.error {
            Some(f) => Err(f),
            None => Ok(self.results),
        }
    }

    /// Whether a request that has come this far has a statement to run next.
    pub open spec fn has_next(self) -> bool {
        self.error is None && self.todo.len() > 0
    }
}

/// Whether `action` and `after` are how a request goes on from `before`: with
/// the next statement, else with the end of its transaction if it has one,
/// else it is finished.
pub open spec fn goes_on(before: Legacy, after: Legacy, action: LegacyAction) -> bool {
    if before.has_next() {
        &&& after == Legacy { todo: before.todo.drop_first(), stage: Stage::Running, ..before }
        &&& action matches LegacyAction::Execute { sql, args } && sql@ == before.todo[0].q@
            && are_args(args.args@, args.named_args@, before.todo[0].params)
    } else if before.multi && before.error is None {
        &&& after == Legacy { stage: Stage::Committing, ..before }
        &&& action matches LegacyAction::Control(sql) && sql@ == "COMMIT"@
    } else if before.multi {
        &&& after == Legacy { stage: Stage::RollingBack, ..before }
        &&& action matches LegacyAction::Control(sql) && sql@ == "ROLLBACK"@
    } else {
        &&& after == Legacy { stage: Stage::Finished, ..before }
        &&& action is Finish
    }
}

/// What a failed statement makes of the whole request.
pub open spec fn legacy_refusal(e: crate::error::Failure) -> Refusal {
    Refusal { status: 500, code: e.code, message: e.message }
}

/// How a request begins: several statements run in a transaction.
pub open spec fn begins(before: Legacy, after: Legacy, action: LegacyAction) -> bool {
    if before.multi {
        &&& action matches LegacyAction::Control(sql) && sql@ == "BEGIN IMMEDIATE"@
        &&& after == Legacy { stage: Stage::Opening, ..before }
    } else {
        goes_on(before, after, action)
    }
}

/// How a request goes on from a statement of the server's own, which failed
/// where `failure` says so.
pub open spec fn controls(
    before: Legacy,
    failure: Option<crate::error::Failure>,
    after: Legacy,
    action: LegacyAction,
) -> bool {
    match (before.stage, failure) {
        (Stage::Opening, _) => goes_on(
            (Legacy { open: failure is None, ..before }),
            after,
            action,
        ),
        (Stage::Committing, Some(f)) if before.open => {
            &&& after == Legacy {
                error: Some(legacy_refusal(f)),
                stage: Stage::RollingBack,
                ..before
            }
            &&& action matches LegacyAction::Control(sql) && sql@ == "ROLLBACK"@
        },
        _ => after == (Legacy { stage: Stage::Finished, ..before }) && action is Finish,
    }
}

/// How a request goes on from a statement that gave a result.
pub open spec fn gave(
    before: Legacy,
    result: StmtResult,
    after: Legacy,
    action: LegacyAction,
) -> bool {
    let shown = after.results.last();
    &&& shows_result(shown, result)
    &&& after.results == before.results.push(shown)
    &&& goes_on((Legacy { results: before.results.push(shown), ..before }), after, action)
}

/// How a request goes on from a statement that failed.
pub open spec fn failed(
    before: Legacy,
    f: crate::error::Failure,
    after: Legacy,
    action: LegacyAction,
) -> bool {
    goes_on((Legacy { error: Some(legacy_refusal(f)), ..before }), after, action)
}

impl LegacyRun {
    pub fn new(statements: Vec<LegacyStatement>) -> (r: Self)
        ensures
            r@ == Legacy::fresh(statements@),
    {
        let multi: bool = statements.len() > 1;
        let ghost all = statements@;
        let mut statements: Vec<LegacyStatement> = statements;
        let mut todo: Vec<LegacyStatement> = Vec::new();
        assert(todo@ =~= all.reverse().take(0));
        while statements.len() > 0
            invariant
                statements@ == all.take(statements@.len() as int),
                statements@.len() <= all.len(),
                todo@ == all.reverse().take(all.len() - statements@.len()),
            decreases statements@.len(),
        {
            let ghost n = statements@.len();
            if let Some(x) = statements.pop() {
                todo.push(x);
                assert(statements@ =~= all.take(n - 1));
                assert(todo@ =~= all.reverse().take(all.len() - (n - 1)));
            }
        }
        assert(todo@ =~= all.reverse());
        assert(all.reverse().reverse() =~= all);
        LegacyRun {
            todo,
            multi,
            open: false,
            results: Vec::new(),
            error: None,
            stage: Stage::Start,
        }
    }

    /// The first thing to be done: several statements run in a transaction.
    pub fn start(&mut self) -> (r: LegacyAction)
        requires
            old(self)@.stage == Stage::Start,
        ensures
            begins(old(self)@, final(self)@, r),
    {
        if self.multi {
            self.stage = Stage::Opening;
            return LegacyAction::Control("BEGIN IMMEDIATE");
        }
        self.go_on()
    }

    /// The statement of the server's own gave that. Where an open transaction
    /// cannot be committed, that is the request's failure, and it is rolled
    /// back. Otherwise the outcome is not asked for.
    pub fn controlled(&mut self, outcome: Result<(), StmtError>) -> (r: LegacyAction)
        requires
            old(self)@.stage == Stage::Opening || old(self)@.stage == Stage::Committing
                || old(self)@.stage == Stage::RollingBack,
        ensures
            controls(
                old(self)@,
                match outcome {
                    Ok(_) => None,
                    Err(e) => Some(e@),
                },
                final(self)@,
                r,
            ),
    {
        match self.stage {
            Stage::Opening => {
                self.open = outcome.is_ok();
                self.go_on()
            },
            Stage::Committing => {
                if let Err(e) = outcome {
                    if self.open {
                        self.error = Some(AppError::new(500, e.code.as_str(), e.message.as_str()));
                        self.stage = Stage::RollingBack;
                        return LegacyAction::Control("ROLLBACK");
                    }
                }
                self.stage = Stage::Finished;
                LegacyAction::Finish
            },
            _ => {
                self.stage = Stage::Finished;
                LegacyAction::Finish
            },
        }
    }

    /// A statement of the request gave that. The first failure ends the
    /// request.
    pub fn executed(&mut self, outcome: Result<StmtResult, StmtError>) -> (r: LegacyAction)
        requires
            old(self)@.stage == Stage::Running,
            outcome matches Ok(result) ==> result_fits(result),
        ensures
            match outcome {
                Ok(result) => gave(old(self)@, result, final(self)@, r),
                Err(e) => failed(old(self)@, e@, final(self)@, r),
            },
    {
        match outcome {
            Ok(result) => {
                let shown = legacy_rows(&result);
                self.results.push(shown);
                assert(self@ =~= Legacy { results: old(self)@.results.push(shown), ..old(self)@ });
                self.go_on()
            },
            Err(e) => {
                let error = AppError::new(500, e.code.as_str(), e.message.as_str());
                self.error = Some(error);
                assert(self@ =~= Legacy { error: Some(legacy_refusal(e@)), ..old(self)@ });
                self.go_on()
            },
        }
    }

    fn go_on(&mut self) -> (r: LegacyAction)
        ensures
            goes_on(old(self)@, final(self)@, r),
    {
        if self.error.is_none() && self.todo.len() > 0 {
            let ghost before = self@;
            let ghost all = self.todo@;
            if let Some(stmt) = self.todo.pop() {
                assert(self.todo@.reverse() =~= all.reverse().drop_first());
                assert(all.reverse()[0] == stmt);
                self.stage = Stage::Running;
                let args = legacy_args(&stmt.params);
                return LegacyAction::Execute { sql: stmt.q, args };
            }
        }
        if self.multi {
            if self.error.is_some() {
                self.stage = Stage::RollingBack;
                return LegacyAction::Control("ROLLBACK");
            }
            self.stage = Stage::Committing;
            return LegacyAction::Control("COMMIT");
        }
        self.stage = Stage::Finished;
        LegacyAction::Finish
    }

    /// The answer: what the statements gave, or the failure of the first that
    /// failed, or of the commit.
    pub fn finish(self) -> (r: Result<Vec<LegacyRows>, AppError>)
        requires
            self@.stage == Stage::Finished,
        ensures
            match self@.answer() {
                Err(f) => r is Err && r->Err_0@ == f,
                Ok(results) => r is Ok && r->Ok_0@ == results,
            },
    {
        match self.error {
            Some(e) => Err(e),
            None => Ok(self.results),
        }
    }
}

/// Several statements of which one fails leave nothing behind: the failure is
/// followed by a rollback, and success by a commit.
pub proof fn transaction_is_closed(before: Legacy, after: Legacy, action: LegacyAction)
    requires
        goes_on(before, after, action),
        before.multi,
        before.error is Some || before.todo.len() == 0,
    ensures
        action matches LegacyAction::Control(sql) && sql@ == (if before.error is Some {
            "ROLLBACK"@
        } else {
            "COMMIT"@
        }),
{
}

} // verus!
