use crate::vars::VarMap;
use vstd::prelude::*;

verus! {

// ---------------------------------------------------------------------------
// Trusted boundary: address validation and tabular decoding.
// ---------------------------------------------------------------------------

/// Whether a string is a structurally valid mailbox (`local@domain`, with an
/// optional display name), as lettre's parser decides it.
pub uninterp spec fn is_mailbox(s: Seq<char>) -> bool;

/// Relies on lettre's `FromStr` for `Mailbox`: whether a string parses as a
/// mailbox depends on its characters alone.
#[verifier::external_body]
fn mailbox_is_valid(s: &str) -> (r: bool)
    ensures
        r == is_mailbox(s@),
{
    s.parse::<lettre::message::Mailbox>().is_ok()
}

/// The header row that the tabular decoder reads off a CSV text, or the error
/// it reports; a function of the text alone.
pub uninterp spec fn csv_headers(s: Seq<char>) -> Result<Seq<Seq<char>>, Seq<char>>;

/// The data rows that the tabular decoder reads off a CSV text, in order,
/// each either its fields or the error reported for it; a function of the
/// text alone.
pub uninterp spec fn csv_records(s: Seq<char>) -> Seq<Result<Seq<Seq<char>>, Seq<char>>>;

/// The view of decoded rows: each row either its fields' views or the error
/// text's view.
pub open spec fn rows_view(rows: Seq<Result<Vec<String>, String>>) -> Seq<
    Result<Seq<Seq<char>>, Seq<char>>,
> {
    Seq::new(
        rows.len(),
        |i: int|
            match rows[i] {
                Ok(fields) => Ok(fields.deep_view()),
                Err(msg) => Err(msg@),
            },
    )
}

/// Relies on csv's `Reader::headers`: the first record of the text, its
/// fields as strings, or the decoder's error.
#[verifier::external_body]
fn read_csv_headers(data: &str) -> (r: Result<Vec<String>, String>)
    ensures
        match r {
            Ok(h) => csv_headers(data@) == Ok::<Seq<Seq<char>>, Seq<char>>(h.deep_view()),
            Err(e) => csv_headers(data@) == Err::<Seq<Seq<char>>, Seq<char>>(e@),
        },
{
    let mut reader = csv::Reader::from_reader(data.as_bytes());
    match reader.headers() {
        Ok(record) => Ok(record.iter().map(String::from).collect()),
        Err(err) => Err(err.to_string()),
    }
}

/// Relies on csv's `Reader::into_records`: every record after the header row,
/// in order, each its fields as strings or the decoder's error for that row.
#[verifier::external_body]
fn read_csv_records(data: &str) -> (r: Vec<Result<Vec<String>, String>>)
    ensures
        rows_view(r@) == csv_records(data@),
{
    let reader = csv::Reader::from_reader(data.as_bytes());
    reader
        .into_records()
        .map(|result| match result {
            Ok(record) => Ok(record.iter().map(String::from).collect()),
            Err(err) => Err(err.to_string()),
        })
        .collect()
}

// ---------------------------------------------------------------------------
// The recipient data model.
// ---------------------------------------------------------------------------

/// The reserved name of the column that supplies the address field.
pub open spec fn address_key() -> Seq<char> {
    "email"@
}

/// One recipient: a validated address, the variables drawn from the other
/// columns, and the delivery flag, initially false.
#[derive(Debug)]
pub struct Recipient {
    pub email: String,
    pub variables: VarMap,
    pub sent: bool,
}

/// The mathematical value of a `Recipient`.
pub struct RecipientV {
    pub email: Seq<char>,
    pub variables: Map<Seq<char>, Seq<char>>,
    pub sent: bool,
}

impl View for Recipient {
    type V = RecipientV;

    open spec fn view(&self) -> RecipientV {
        RecipientV { email: self.email@, variables: self.variables@, sent: self.sent }
    }
}

impl DeepView for Recipient {
    type V = RecipientV;

    open spec fn deep_view(&self) -> RecipientV {
        self@
    }
}

/// Why one data row failed to parse.
#[derive(Debug)]
pub enum RowCause {
    /// The tabular decoder rejected the row, with its report.
    Csv(String),
    /// The header row has no address column.
    MissingAddressColumn,
    /// The row's field count differs from the header row's.
    FieldCount { expected: usize, found: usize },
    /// The address field is not a structurally valid mailbox.
    BadAddress(String),
}

/// The mathematical value of a `RowCause`.
pub enum RowCauseV {
    Csv(Seq<char>),
    MissingAddressColumn,
    FieldCount { expected: nat, found: nat },
    BadAddress(Seq<char>),
}

impl View for RowCause {
    type V = RowCauseV;

    open spec fn view(&self) -> RowCauseV {
        match self {
            RowCause::Csv(msg) => RowCauseV::Csv(msg@),
            RowCause::MissingAddressColumn => RowCauseV::MissingAddressColumn,
            RowCause::FieldCount { expected, found } => RowCauseV::FieldCount {
                expected: *expected as nat,
                found: *found as nat,
            },
            RowCause::BadAddress(field) => RowCauseV::BadAddress(field@),
        }
    }
}

/// Why one data row failed, tagged with its 1-based row index.
#[derive(Debug)]
pub struct RowDiagnostic {
    pub row: usize,
    pub cause: RowCause,
}

/// The mathematical value of a `RowDiagnostic`.
pub struct RowDiagnosticV {
    pub row: int,
    pub cause: RowCauseV,
}

impl View for RowDiagnostic {
    type V = RowDiagnosticV;

    open spec fn view(&self) -> RowDiagnosticV {
        RowDiagnosticV { row: self.row as int, cause: self.cause@ }
    }
}

impl DeepView for RowDiagnostic {
    type V = RowDiagnosticV;

    open spec fn deep_view(&self) -> RowDiagnosticV {
        self@
    }
}

/// Why a whole load failed.
#[derive(Debug)]
pub enum LoadError {
    /// The header row itself could not be read; the decoder's report.
    Header(String),
    /// One diagnostic per failing data row, in row order.
    InvalidRows(Vec<RowDiagnostic>),
}

/// The ordered batch of parsed recipients.
#[derive(Debug)]
pub struct Recipients {
    records: Vec<Recipient>,
}

impl View for Recipients {
    type V = Seq<RecipientV>;

    closed spec fn view(&self) -> Seq<RecipientV> {
        self.records.deep_view()
    }
}

// ---------------------------------------------------------------------------
// The loading model.
// ---------------------------------------------------------------------------

/// The index of the first header named as the address column, if any.
pub open spec fn addr_index_from(headers: Seq<Seq<char>>, j: int) -> Option<int>
    decreases headers.len() - j,
{
    if j < 0 || j >= headers.len() {
        None
    } else if headers[j] == address_key() {
        Some(j)
    } else {
        addr_index_from(headers, j + 1)
    }
}

pub open spec fn addr_index(headers: Seq<Seq<char>>) -> Option<int> {
    addr_index_from(headers, 0)
}

/// The variables a row carries: one per column, keyed by the header, except
/// every column named as the address column.
pub open spec fn row_vars(headers: Seq<Seq<char>>, fields: Seq<Seq<char>>, n: int) -> Map<
    Seq<char>,
    Seq<char>,
>
    decreases n,
{
    if n <= 0 {
        Map::empty()
    } else {
        let m = row_vars(headers, fields, n - 1);
        if headers[n - 1] == address_key() {
            m
        } else {
            m.insert(headers[n - 1], fields[n - 1])
        }
    }
}

/// What one decoded row parses to: a recipient, or the cause of its failure.
pub open spec fn spec_row(
    headers: Seq<Seq<char>>,
    row: Result<Seq<Seq<char>>, Seq<char>>,
) -> Result<RecipientV, RowCauseV> {
    match row {
        Err(msg) => Err(RowCauseV::Csv(msg)),
        Ok(fields) => match addr_index(headers) {
            None => Err(RowCauseV::MissingAddressColumn),
            Some(a) => if fields.len() != headers.len() {
                Err(RowCauseV::FieldCount { expected: headers.len(), found: fields.len() })
            } else if !is_mailbox(fields[a]) {
                Err(RowCauseV::BadAddress(fields[a]))
            } else {
                Ok(
                    RecipientV {
                        email: fields[a],
                        variables: row_vars(headers, fields, headers.len() as int),
                        sent: false,
                    },
                )
            },
        },
    }
}

/// The recipients of the rows that parse, in source row order.
pub open spec fn spec_recipients(
    headers: Seq<Seq<char>>,
    rows: Seq<Result<Seq<Seq<char>>, Seq<char>>>,
) -> Seq<RecipientV>
    decreases rows.len(),
{
    if rows.len() == 0 {
        Seq::empty()
    } else {
        spec_recipients(headers, rows.drop_last()) + (match spec_row(headers, rows.last()) {
            Ok(rv) => seq![rv],
            Err(_) => Seq::empty(),
        })
    }
}

/// The diagnostics of the rows that fail, each under its 1-based row index,
/// in row order.
pub open spec fn spec_diagnostics(
    headers: Seq<Seq<char>>,
    rows: Seq<Result<Seq<Seq<char>>, Seq<char>>>,
) -> Seq<RowDiagnosticV>
    decreases rows.len(),
{
    if rows.len() == 0 {
        Seq::empty()
    } else {
        spec_diagnostics(headers, rows.drop_last()) + (match spec_row(headers, rows.last()) {
            Ok(_) => Seq::empty(),
            Err(cause) => seq![RowDiagnosticV { row: rows.len() as int, cause }],
        })
    }
}

// ---------------------------------------------------------------------------
// The executable loader.
// ---------------------------------------------------------------------------

/// The index of the first header column named `email`, if any.
fn find_address_column(headers: &Vec<String>) -> (r: Option<usize>)
    ensures
        match r {
            Some(j) => j < headers@.len() && addr_index(headers.deep_view()) == Some(j as int),
            None => addr_index(headers.deep_view()) is None,
        },
{
    let key = String::from_str("email");
    let mut j: usize = 0;
    while j < headers.len()
        invariant
            j <= headers@.len(),
            key@ == address_key(),
            addr_index(headers.deep_view()) == addr_index_from(headers.deep_view(), j as int),
        decreases headers@.len() - j,
    {
        if headers[j] == key {
            return Some(j);
        }
        j = j + 1;
    }
    None
}

/// The variables of one row: every column but those named as the address
/// column, keyed by its header.
fn collect_row_vars(headers: &Vec<String>, fields: &Vec<String>) -> (r: VarMap)
    requires
        fields@.len() == headers@.len(),
    ensures
        r@ == row_vars(headers.deep_view(), fields.deep_view(), headers@.len() as int),
{
    let key = String::from_str("email");
    let mut vars = VarMap::new();
    let mut j: usize = 0;
    while j < headers.len()
        invariant
            j <= headers@.len(),
            fields@.len() == headers@.len(),
            key@ == address_key(),
            vars@ == row_vars(headers.deep_view(), fields.deep_view(), j as int),
        decreases headers@.len() - j,
    {
        if !(headers[j] == key) {
            vars.insert(headers[j].clone(), fields[j].clone());
        }
        j = j + 1;
    }
    vars
}

impl Recipients {
    /// How many recipients the batch holds.
    pub fn len(&self) -> (r: usize)
        ensures
            r == self@.len(),
    {
        self.records.len()
    }

    /// Hands the batch out as a vector, in source row order.
    pub fn into_vec(self) -> (r: Vec<Recipient>)
        ensures
            r.deep_view() == self@,
    {
        self.records
    }

    /// Parses decoded rows under a header row into a batch.
    ///
    /// All-or-nothing: every row is examined, and if any fails, the whole
    /// load fails with one diagnostic per failing row — no partial batch.
    pub fn from_rows(headers: &Vec<String>, rows: Vec<Result<Vec<String>, String>>) -> (r: Result<
        Recipients,
        LoadError,
    >)
        ensures
            r is Ok <==> spec_diagnostics(headers.deep_view(), rows_view(rows@)).len() == 0,
            match r {
                Ok(batch) => batch@ == spec_recipients(headers.deep_view(), rows_view(rows@)),
                Err(e) => match e {
                    LoadError::InvalidRows(ds) => ds.deep_view() == spec_diagnostics(
                        headers.deep_view(),
                        rows_view(rows@),
                    ),
                    LoadError::Header(_) => false,
                },
            },
    {
        let ghost h = headers.deep_view();
        let ghost rv = rows_view(rows@);
        let addr = find_address_column(headers);
        let mut recipients: Vec<Recipient> = Vec::new();
        let mut errors: Vec<RowDiagnostic> = Vec::new();
        let mut i: usize = 0;
        proof {
            assert(recipients.deep_view() =~= spec_recipients(h, rv.take(0)));
            assert(errors.deep_view() =~= spec_diagnostics(h, rv.take(0)));
        }
        while i < rows.len()
            invariant
                i <= rows@.len(),
                h == headers.deep_view(),
                rv == rows_view(rows@),
                match addr {
                    Some(j) => j < headers@.len() && addr_index(h) == Some(j as int),
                    None => addr_index(h) is None,
                },
                recipients.deep_view() == spec_recipients(h, rv.take(i as int)),
                errors.deep_view() == spec_diagnostics(h, rv.take(i as int)),
            decreases rows@.len() - i,
        {
            let ghost prefix = rv.take(i as int);
            let ghost step = rv.take(i + 1 as int);
            proof {
                assert(step.drop_last() =~= prefix);
                assert(step.last() == rv[i as int]);
            }
            match &rows[i] {
                Err(msg) => {
                    errors.push(RowDiagnostic { row: i + 1, cause: RowCause::Csv(msg.clone()) });
                    proof {
                        assert(errors.deep_view() =~= spec_diagnostics(h, step));
                        assert(recipients.deep_view() =~= spec_recipients(h, step));
                    }
                },
                Ok(fields) => {
                    match addr {
                        None => {
                            errors.push(
                                RowDiagnostic { row: i + 1, cause: RowCause::MissingAddressColumn },
                            );
                            proof {
                                assert(errors.deep_view() =~= spec_diagnostics(h, step));
                                assert(recipients.deep_view() =~= spec_recipients(h, step));
                            }
                        },
                        Some(a) => {
                            if fields.len() != headers.len() {
                                errors.push(
                                    RowDiagnostic {
                                        row: i + 1,
                                        cause: RowCause::FieldCount {
                                            expected: headers.len(),
                                            found: fields.len(),
                                        },
                                    },
                                );
                                proof {
                                    assert(errors.deep_view() =~= spec_diagnostics(h, step));
                                    assert(recipients.deep_view() =~= spec_recipients(h, step));
                                }
                            } else if !mailbox_is_valid(fields[a].as_str()) {
                                errors.push(
                                    RowDiagnostic {
                                        row: i + 1,
                                        cause: RowCause::BadAddress(fields[a].clone()),
                                    },
                                );
                                proof {
                                    assert(errors.deep_view() =~= spec_diagnostics(h, step));
                                    assert(recipients.deep_view() =~= spec_recipients(h, step));
                                }
                            } else {
                                let vars = collect_row_vars(headers, fields);
                                recipients.push(
                                    Recipient {
                                        email: fields[a].clone(),
                                        variables: vars,
                                        sent: false,
                                    },
                                );
                                proof {
                                    assert(recipients.deep_view() =~= spec_recipients(h, step));
                                    assert(errors.deep_view() =~= spec_diagnostics(h, step));
                                }
                            }
                        },
                    }
                },
            }
            i = i + 1;
        }
        proof {
            assert(rv.take(rows@.len() as int) =~= rv);
        }
        if errors.len() == 0 {
            proof {
                assert(errors.deep_view() =~= Seq::<RowDiagnosticV>::empty());
            }
            Ok(Recipients { records: recipients })
        } else {
            Err(LoadError::InvalidRows(errors))
        }
    }

    /// Loads a whole batch from a CSV text: a header row, then one data row
    /// per recipient. Fails on an unreadable header, or with one diagnostic
    /// per failing row; an all-valid text yields the batch in source order.
    pub fn from_csv(data: &str) -> (r: Result<Recipients, LoadError>)
        ensures
            match csv_headers(data@) {
                Err(msg) => match r {
                    Err(LoadError::Header(m)) => m@ == msg,
                    _ => false,
                },
                Ok(h) => {
                    &&& (r is Ok <==> spec_diagnostics(h, csv_records(data@)).len() == 0)
                    &&& match r {
                        Ok(batch) => batch@ == spec_recipients(h, csv_records(data@)),
                        Err(e) => match e {
                            LoadError::InvalidRows(ds) => ds.deep_view() == spec_diagnostics(
                                h,
                                csv_records(data@),
                            ),
                            LoadError::Header(_) => false,
                        },
                    }
                },
            },
    {
        let headers = match read_csv_headers(data) {
            Err(e) => {
                return Err(LoadError::Header(e));
            },
            Ok(h) => h,
        };
        let rows = read_csv_records(data);
        Recipients::from_rows(&headers, rows)
    }
}

impl From<Vec<Recipient>> for Recipients {
    /// Wraps an already parsed vector of recipients as a batch.
    fn from(records: Vec<Recipient>) -> (r: Recipients) {
        Recipients { records }
    }
}

impl vstd::std_specs::convert::FromSpecImpl<Vec<Recipient>> for Recipients {
    open spec fn obeys_from_spec() -> bool {
        true
    }

    closed spec fn from_spec(records: Vec<Recipient>) -> Recipients {
        Recipients { records }
    }
}

// ---------------------------------------------------------------------------
// Laws.
// ---------------------------------------------------------------------------

proof fn lemma_row_vars_no_address_key(headers: Seq<Seq<char>>, fields: Seq<Seq<char>>, n: int)
    ensures
        !row_vars(headers, fields, n).contains_key(address_key()),
    decreases n,
{
    if n > 0 {
        lemma_row_vars_no_address_key(headers, fields, n - 1);
    }
}

/// Law: a row that parses yields a structurally valid address, starts
/// undelivered, and its variables never contain the reserved address-column
/// name.
pub proof fn lemma_recipient_well_formed(
    headers: Seq<Seq<char>>,
    row: Result<Seq<Seq<char>>, Seq<char>>,
)
    requires
        spec_row(headers, row) is Ok,
    ensures
        is_mailbox(spec_row(headers, row)->Ok_0.email),
        spec_row(headers, row)->Ok_0.sent == false,
        !spec_row(headers, row)->Ok_0.variables.contains_key(address_key()),
{
    let fields = row->Ok_0;
    lemma_row_vars_no_address_key(headers, fields, headers.len() as int);
}

/// Law: an all-valid batch is loaded whole and preserves source row order
/// exactly — one recipient per row, each parsed from its own row.
pub proof fn lemma_success_ordering(
    headers: Seq<Seq<char>>,
    rows: Seq<Result<Seq<Seq<char>>, Seq<char>>>,
)
    requires
        forall|i: int| 0 <= i < rows.len() ==> spec_row(headers, #[trigger] rows[i]) is Ok,
    ensures
        spec_recipients(headers, rows).len() == rows.len(),
        forall|i: int|
            0 <= i < rows.len() ==> spec_recipients(headers, rows)[i] == spec_row(
                headers,
                #[trigger] rows[i],
            )->Ok_0,
    decreases rows.len(),
{
    if rows.len() > 0 {
        assert forall|i: int| 0 <= i < rows.drop_last().len() implies spec_row(
            headers,
            #[trigger] rows.drop_last()[i],
        ) is Ok by {
            assert(rows.drop_last()[i] == rows[i]);
        }
        lemma_success_ordering(headers, rows.drop_last());
        assert forall|i: int| 0 <= i < rows.len() implies spec_recipients(headers, rows)[i]
            == spec_row(headers, #[trigger] rows[i])->Ok_0 by {
            if i < rows.len() - 1 {
                assert(rows.drop_last()[i] == rows[i]);
                assert(spec_recipients(headers, rows)[i] == spec_recipients(
                    headers,
                    rows.drop_last(),
                )[i]);
            }
        }
    }
}

/// Law: row isolation — every row is accounted for, the diagnostics name
/// exactly the 1-based indices of the failing rows, in increasing order, with
/// each row's own cause, and every failing row is reported.
pub proof fn lemma_row_isolation(
    headers: Seq<Seq<char>>,
    rows: Seq<Result<Seq<Seq<char>>, Seq<char>>>,
)
    ensures
        spec_recipients(headers, rows).len() + spec_diagnostics(headers, rows).len() == rows.len(),
        forall|k: int|
            0 <= k < spec_diagnostics(headers, rows).len() ==> {
                let d = #[trigger] spec_diagnostics(headers, rows)[k];
                &&& 1 <= d.row <= rows.len()
                &&& spec_row(headers, rows[d.row - 1]) == Err::<RecipientV, RowCauseV>(d.cause)
            },
        forall|i: int|
            0 <= i < rows.len() && spec_row(headers, #[trigger] rows[i]) is Err ==> exists|k: int|
                0 <= k < spec_diagnostics(headers, rows).len() && #[trigger] spec_diagnostics(
                    headers,
                    rows,
                )[k].row == i + 1,
        forall|k1: int, k2: int|
            0 <= k1 < k2 < spec_diagnostics(headers, rows).len() ==> #[trigger] spec_diagnostics(
                headers,
                rows,
            )[k1].row < #[trigger] spec_diagnostics(headers, rows)[k2].row,
    decreases rows.len(),
{
    if rows.len() > 0 {
        lemma_row_isolation(headers, rows.drop_last());
        let prev = spec_diagnostics(headers, rows.drop_last());
        let ds = spec_diagnostics(headers, rows);
        assert forall|k: int| 0 <= k < prev.len() implies prev[k] == ds[k] by {}
        assert forall|k: int| 0 <= k < ds.len() implies {
            let d = #[trigger] ds[k];
            &&& 1 <= d.row <= rows.len()
            &&& spec_row(headers, rows[d.row - 1]) == Err::<RecipientV, RowCauseV>(d.cause)
        } by {
            if k < prev.len() {
                let d = prev[k];
                assert(rows.drop_last()[d.row - 1] == rows[d.row - 1]);
            }
        }
        assert forall|i: int|
            0 <= i < rows.len() && spec_row(headers, #[trigger] rows[i]) is Err implies exists|
            k: int,
        |
            0 <= k < ds.len() && #[trigger] ds[k].row == i + 1 by {
            if i < rows.len() - 1 {
                assert(rows.drop_last()[i] == rows[i]);
                let k = choose|k: int| 0 <= k < prev.len() && #[trigger] prev[k].row == i + 1;
                assert(ds[k].row == i + 1);
            } else {
                assert(ds[ds.len() - 1].row == i + 1);
            }
        }
    }
}

/// What `Recipients::from` builds: the batch of exactly the given records.
pub proof fn lemma_from_vec(records: Vec<Recipient>)
    ensures
        <Recipients as vstd::std_specs::convert::FromSpec<Vec<Recipient>>>::from_spec(records)@
            == records.deep_view(),
{
}

} // verus!
