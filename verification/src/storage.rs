//! What local history stores of an analysis, and what is read back of it.

use crate::model;
use crate::model::{
    AiCategory, AiExplanation, AiReport, AiReportView, AiStatus, AiStatusView, AiSuggestedAction,
    Confidence, DuplicateEntry, DuplicateGroup, DuplicateReport, DuplicateWarningView, DuplicatesView, EntryView, ExplanationView, FileIdentity, Finding, FindingCategory,
    FindingView, GroupView, ItemView, Relationship, RelationshipKind, RelationshipReport,
    RelationshipView, RelationshipsView, RiskLevel, ScanResult, ScanView, ScanWarningView, ScannedItem,
    SuggestedAction,
};
use crate::naming::Named;
use crate::order;
use crate::order::Ranking;
use crate::path;
use crate::path::{FilePath, GivenView, PartView};
use crate::policy::Platform;
use crate::progress;
use crate::progress::{CancellationToken, StopSignal, TokenSignal};
use crate::single;
use crate::text;
use vstd::prelude::*;

verus! {

/// The version of the schema that is written.
pub const SCHEMA_VERSION: i64 = 3;

#[derive(Debug)]
pub enum DatabaseError {
    DataDirectoryUnavailable,
    UnsupportedSchemaVersion { found: i64, supported: i64 },
    IntegerOutOfRange { field: &'static str, value: u64 },
    /// A stored integer that is negative and cannot be.
    InvalidStoredInteger { field: &'static str, value: i64 },
    /// A stored integer that is negative and cannot be, as reading a row tells of
    /// it.
    Conversion { field: &'static str, value: i64 },
    /// A stored name that is none of those that are expected.
    UnknownName { name: String, expected: Vec<&'static str> },
    InvalidEvidence(String),
    Cancelled,
}

#[verifier::ext_equal]
pub enum DatabaseErrorView {
    DataDirectoryUnavailable,
    UnsupportedSchemaVersion { found: i64, supported: i64 },
    IntegerOutOfRange { field: Seq<char>, value: u64 },
    InvalidStoredInteger { field: Seq<char>, value: i64 },
    Conversion { field: Seq<char>, value: i64 },
    UnknownName { name: Seq<char>, expected: Seq<Seq<char>> },
    InvalidEvidence(Seq<char>),
    Cancelled,
}

impl View for DatabaseError {
    type V = DatabaseErrorView;

    open spec fn view(&self) -> DatabaseErrorView {
        match self {
            DatabaseError::DataDirectoryUnavailable => DatabaseErrorView::DataDirectoryUnavailable,
            DatabaseError::UnsupportedSchemaVersion { found, supported } =>
            DatabaseErrorView::UnsupportedSchemaVersion { found: *found, supported: *supported },
            DatabaseError::IntegerOutOfRange { field, value } =>
            DatabaseErrorView::IntegerOutOfRange { field: field@, value: *value },
            DatabaseError::InvalidStoredInteger { field, value } =>
            DatabaseErrorView::InvalidStoredInteger { field: field@, value: *value },
            DatabaseError::Conversion { field, value } => DatabaseErrorView::Conversion {
                field: field@,
                value: *value,
            },
            DatabaseError::UnknownName { name, expected } => DatabaseErrorView::UnknownName {
                name: name@,
                expected: order::views(expected@),
            },
            DatabaseError::InvalidEvidence(reason) => DatabaseErrorView::InvalidEvidence(reason@),
            DatabaseError::Cancelled => DatabaseErrorView::Cancelled,
        }
    }
}

/// A whole number as it is written.
pub open spec fn signed_decimal(value: i64) -> Seq<char> {
    if value < 0 {
        "-"@ + text::decimal((-(value as int)) as nat)
    } else {
        text::decimal(value as nat)
    }
}

pub fn signed_decimal_of(value: i64) -> (result: String)
    ensures
        result@ == signed_decimal(value),
{
    if value < 0 {
        let magnitude: u64 = if value == i64::MIN {
            9_223_372_036_854_775_808
        } else {
            (-value) as u64
        };
        text::cat2("-", text::decimal_of(magnitude).as_str())
    } else {
        text::decimal_of(value as u64)
    }
}

/// A name in quotes.
pub open spec fn ticked(name: Seq<char>) -> Seq<char> {
    "`"@ + name + "`"@
}

/// The names that were expected, as an error lists them.
pub open spec fn alternatives(names: Seq<Seq<char>>) -> Seq<char> {
    if names.len() == 1 {
        ticked(names[0])
    } else if names.len() == 2 {
        ticked(names[0]) + " or "@ + ticked(names[1])
    } else {
        "one of "@ + text::joined(Seq::new(names.len(), |i: int| ticked(names[i])), ", "@)
    }
}

fn list_alternatives(names: &Vec<&'static str>) -> (result: String)
    ensures
        result@ == alternatives(order::views(names@)),
{
    let ghost all = order::views(names@);
    let mut quoted: Vec<String> = Vec::new();
    let mut at: usize = 0;
    while at < names.len()
        invariant
            at <= names@.len(),
            all == order::views(names@),
            quoted@.len() == at,
            forall|i: int| 0 <= i < at ==> (#[trigger] quoted@[i])@ == ticked(all[i]),
        decreases names@.len() - at,
    {
        quoted.push(text::cat3("`", names[at], "`"));
        at = at + 1;
    }
    if names.len() == 1 {
        text::cat3("`", names[0], "`")
    } else if names.len() == 2 {
        text::cat3(quoted[0].as_str(), " or ", quoted[1].as_str())
    } else {
        assert(order::views(quoted@) =~= Seq::new(all.len(), |i: int| ticked(all[i])));
        text::cat2("one of ", text::join(quoted.as_slice(), ", ").as_str())
    }
}

impl DatabaseErrorView {
    /// The error as a sentence.
    pub open spec fn described(self) -> Seq<char>
        decreases
            if self is Conversion {
                1nat
            } else {
                0nat
            },
    {
        match self {
            DatabaseErrorView::DataDirectoryUnavailable =>
            "cannot determine a local data directory; set SPACEMIND_DATABASE"@,
            DatabaseErrorView::UnsupportedSchemaVersion { found, supported } =>
            "database schema version "@ + signed_decimal(found)
                + " is not supported; expected "@ + signed_decimal(supported),
            DatabaseErrorView::IntegerOutOfRange { field, value } => field
                + " is too large to store in SQLite: "@ + text::decimal(value as nat),
            DatabaseErrorView::InvalidStoredInteger { field, value } =>
            "invalid negative value in database column "@ + field + ": "@ + signed_decimal(value),
            DatabaseErrorView::Conversion { field, value } =>
            "Conversion error from type Integer at index: 0, "@
                + (DatabaseErrorView::InvalidStoredInteger { field, value }).described(),
            DatabaseErrorView::UnknownName { name, expected } => "unknown variant `"@ + name
                + "`, expected "@ + alternatives(expected),
            DatabaseErrorView::InvalidEvidence(reason) => reason,
            DatabaseErrorView::Cancelled => "database write cancelled; no scan history was saved"@,
        }
    }
}

impl DatabaseError {
    pub fn describe(&self) -> (result: String)
        ensures
            result@ == self@.described(),
        decreases
            if self is Conversion {
                1nat
            } else {
                0nat
            },
    {
        match self {
            DatabaseError::DataDirectoryUnavailable =>
            "cannot determine a local data directory; set SPACEMIND_DATABASE".to_owned(),
            DatabaseError::UnsupportedSchemaVersion { found, supported } => text::cat4(
                "database schema version ",
                signed_decimal_of(*found).as_str(),
                " is not supported; expected ",
                signed_decimal_of(*supported).as_str(),
            ),
            DatabaseError::IntegerOutOfRange { field, value } => text::cat3(
                field,
                " is too large to store in SQLite: ",
                text::decimal_of(*value).as_str(),
            ),
            DatabaseError::InvalidStoredInteger { field, value } => text::cat4(
                "invalid negative value in database column ",
                field,
                ": ",
                signed_decimal_of(*value).as_str(),
            ),
            DatabaseError::Conversion { field, value } => text::cat2(
                "Conversion error from type Integer at index: 0, ",
                (DatabaseError::InvalidStoredInteger { field: *field, value: *value }).describe().as_str(),
            ),
            DatabaseError::UnknownName { name, expected } => text::cat4(
                "unknown variant `",
                name.as_str(),
                "`, expected ",
                list_alternatives(expected).as_str(),
            ),
            DatabaseError::InvalidEvidence(reason) => reason.clone(),
            DatabaseError::Cancelled => "database write cancelled; no scan history was saved".to_owned(),
        }
    }
}

/// A step from one version of the schema to the next.
#[derive(Debug, Clone, Copy, PartialEq, Eq, Structural)]
pub enum Migration {
    ToVersionOne,
    ToVersionTwo,
    ToVersionThree,
}

/// The version that a step starts from.
pub open spec fn version_before(step: Migration) -> int {
    match step {
        Migration::ToVersionOne => 0,
        Migration::ToVersionTwo => 1,
        Migration::ToVersionThree => 2,
    }
}

/// The steps from a version to the current one, where it is known.
pub fn migration_steps(version: i64) -> (result: Result<Vec<Migration>, DatabaseError>)
    ensures
        match result {
            Ok(steps) => {
                &&& 0 <= version <= SCHEMA_VERSION
                &&& steps@.len() == SCHEMA_VERSION - version
                &&& forall|i: int|
                    0 <= i < steps@.len() ==> version_before(#[trigger] steps@[i]) == version + i
            },
            Err(error) => !(0 <= version <= SCHEMA_VERSION) && error@ == (
            DatabaseErrorView::UnsupportedSchemaVersion {
                found: version,
                supported: SCHEMA_VERSION,
            }),
        },
{
    if version == 0 {
        Ok(vec![Migration::ToVersionOne, Migration::ToVersionTwo, Migration::ToVersionThree])
    } else if version == 1 {
        Ok(vec![Migration::ToVersionTwo, Migration::ToVersionThree])
    } else if version == 2 {
        Ok(vec![Migration::ToVersionThree])
    } else if version == SCHEMA_VERSION {
        Ok(Vec::new())
    } else {
        Err(DatabaseError::UnsupportedSchemaVersion { found: version, supported: SCHEMA_VERSION })
    }
}

/// Where the database is kept by what the environment says.
pub open spec fn database_path(
    platform: Platform,
    database: Option<Seq<u8>>,
    local_data: Option<Seq<u8>>,
    data_home: Option<Seq<u8>>,
    home: Option<Seq<u8>>,
) -> Option<GivenView> {
    match (database, local_data, data_home, home) {
        (Some(given), _, _, _) if given.len() > 0 => Some(path::given_as(given)),
        (_, Some(given), _, _) if platform == Platform::Windows && given.len() > 0 => Some(
            path::resolved(
                path::given_as(given),
                path::given_as(text::bytes_of("SpaceMind/spacemind.db"@)),
            ),
        ),
        (_, _, Some(given), _) if platform != Platform::Windows && given.len() > 0 => Some(
            path::resolved(
                path::given_as(given),
                path::given_as(text::bytes_of("spacemind/spacemind.db"@)),
            ),
        ),
        (_, _, _, Some(given)) if platform != Platform::Windows => Some(
            path::resolved(
                path::given_as(given),
                path::given_as(text::bytes_of(".local/share/spacemind/spacemind.db"@)),
            ),
        ),
        _ => None,
    }
}

/// Where the database is kept, by the values of `SPACEMIND_DATABASE`, on
/// Windows of `LOCALAPPDATA`, and elsewhere of `XDG_DATA_HOME` and `HOME`.
pub fn default_database_path(
    platform: Platform,
    database: Option<&[u8]>,
    local_data: Option<&[u8]>,
    data_home: Option<&[u8]>,
    home: Option<&[u8]>,
) -> (result: Result<FilePath, DatabaseError>)
    ensures
        ({
            let wanted = database_path(
                platform,
                model::optional(database),
                model::optional(local_data),
                model::optional(data_home),
                model::optional(home),
            );
            match result {
                Ok(found) => wanted == Some(found.as_given()),
                Err(error) => wanted is None && error@
                    == DatabaseErrorView::DataDirectoryUnavailable,
            }
        }),
{
    if let Some(given) = database {
        if given.len() > 0 {
            return Ok(FilePath::from_bytes(given));
        }
    }
    if platform == Platform::Windows {
        if let Some(given) = local_data {
            if given.len() > 0 {
                return Ok(FilePath::from_bytes(given).child("SpaceMind/spacemind.db"));
            }
        }
        return Err(DatabaseError::DataDirectoryUnavailable);
    }
    if let Some(given) = data_home {
        if given.len() > 0 {
            return Ok(FilePath::from_bytes(given).child("spacemind/spacemind.db"));
        }
    }
    match home {
        Some(given) => Ok(
            FilePath::from_bytes(given).child(".local/share/spacemind/spacemind.db"),
        ),
        None => Err(DatabaseError::DataDirectoryUnavailable),
    }
}

/// The bytes that stand for a path of 16-bit units: each unit with its lower
/// byte first.
pub open spec fn unit_bytes(units: Seq<u16>) -> Seq<u8> {
    Seq::new(
        2 * units.len(),
        |i: int|
            if i % 2 == 0 {
                (units[i / 2] % 256) as u8
            } else {
                (units[i / 2] / 256) as u8
            },
    )
}

/// The 16-bit units that an even number of bytes stands for.
pub open spec fn byte_units(bytes: Seq<u8>) -> Seq<u16> {
    Seq::new(bytes.len() / 2, |i: int| (bytes[2 * i] + 256 * bytes[2 * i + 1]) as u16)
}

/// A path of 16-bit units is read back as it was stored.
pub proof fn law_units_read_back(units: Seq<u16>)
    ensures
        unit_bytes(units).len() % 2 == 0,
        byte_units(unit_bytes(units)) == units,
{
    assert forall|i: int| 0 <= i < units.len() implies byte_units(unit_bytes(units))[i]
        == units[i] by {
        assert((2 * i) / 2 == i && (2 * i) % 2 == 0);
        assert((2 * i + 1) / 2 == i && (2 * i + 1) % 2 == 1);
    }
    assert(byte_units(unit_bytes(units)) =~= units);
}

/// What is stored of a path where the operating system spells paths in 16-bit
/// units.
pub fn wide_path_bytes(units: &[u16]) -> (result: Vec<u8>)
    ensures
        result@ == unit_bytes(units@),
{
    let mut bytes: Vec<u8> = Vec::new();
    let mut at: usize = 0;
    while at < units.len()
        invariant
            at <= units.len(),
            bytes@ == unit_bytes(units@.take(at as int)),
        decreases units.len() - at,
    {
        let unit: u16 = units[at];
        bytes.push((unit % 256) as u8);
        bytes.push((unit / 256) as u8);
        at += 1;
        assert(bytes@ =~= unit_bytes(units@.take(at as int)));
    }
    assert(units@.take(at as int) =~= units@);
    bytes
}

/// The 16-bit units of a stored path, or why the stored bytes are none.
pub fn wide_stored_path(bytes: &[u8]) -> (result: Result<Vec<u16>, String>)
    ensures
        match result {
            Ok(units) => bytes@.len() % 2 == 0 && units@ == byte_units(bytes@),
            Err(reason) => bytes@.len() % 2 == 1 && reason@
                == "stored path contains an odd number of bytes: "@ + text::decimal(bytes@.len()),
        },
{
    if bytes.len() % 2 != 0 {
        let count = text::decimal_of(bytes.len() as u64);
        return Err(
            text::cat2("stored path contains an odd number of bytes: ", count.as_str()),
        );
    }
    let mut units: Vec<u16> = Vec::new();
    let mut at: usize = 0;
    while at < bytes.len()
        invariant
            at <= bytes.len(),
            at % 2 == 0,
            bytes@.len() % 2 == 0,
            units@ == byte_units(bytes@.take(at as int)),
        decreases bytes.len() - at,
    {
        units.push(bytes[at] as u16 + 256 * bytes[at + 1] as u16);
        at += 2;
        assert(units@ =~= byte_units(bytes@.take(at as int)));
    }
    assert(bytes@.take(at as int) =~= bytes@);
    Ok(units)
}

/// A number to be stored, with the name of its field.
pub struct Number {
    pub value: Option<u64>,
    pub field: &'static str,
}

#[verifier::ext_equal]
pub struct NumberView {
    pub value: Option<u64>,
    pub field: Seq<char>,
}

impl View for Number {
    type V = NumberView;

    open spec fn view(&self) -> NumberView {
        NumberView { value: self.value, field: self.field@ }
    }
}

pub open spec fn fits(value: Option<u64>) -> bool {
    match value {
        Some(number) => number <= i64::MAX,
        None => true,
    }
}

/// The first number, from a position on, that is too large to be stored.
pub open spec fn first_too_large(numbers: Seq<NumberView>, from: int) -> Option<NumberView>
    decreases numbers.len() - from,
{
    if from < 0 || from >= numbers.len() {
        None
    } else if !fits(numbers[from].value) {
        Some(numbers[from])
    } else {
        first_too_large(numbers, from + 1)
    }
}

/// Why some numbers cannot be stored, where they cannot.
pub open spec fn refusal(numbers: Seq<NumberView>) -> Option<DatabaseErrorView> {
    match first_too_large(numbers, 0) {
        Some(number) => Some(
            DatabaseErrorView::IntegerOutOfRange {
                field: number.field,
                value: number.value->Some_0,
            },
        ),
        None => None,
    }
}

proof fn lemma_all_fit(numbers: Seq<NumberView>, from: int)
    requires
        0 <= from <= numbers.len(),
        first_too_large(numbers, from) is None,
    ensures
        forall|i: int| from <= i < numbers.len() ==> fits((#[trigger] numbers[i]).value),
    decreases numbers.len() - from,
{
    if from < numbers.len() {
        lemma_all_fit(numbers, from + 1);
        assert forall|i: int| from <= i < numbers.len() implies fits(
            (#[trigger] numbers[i]).value,
        ) by {}
    }
}

fn check_numbers(numbers: &Vec<Number>) -> (result: Result<(), DatabaseError>)
    ensures
        match result {
            Ok(_) => refusal(order::views(numbers@)) is None && forall|i: int|
                0 <= i < numbers@.len() ==> fits((#[trigger] numbers@[i]).value),
            Err(error) => refusal(order::views(numbers@)) == Some(error@),
        },
{
    let ghost all = order::views(numbers@);
    let mut at: usize = 0;
    while at < numbers.len()
        invariant
            at <= numbers@.len(),
            all == order::views(numbers@),
            first_too_large(all, 0) == first_too_large(all, at as int),
        decreases numbers@.len() - at,
    {
        assert(all[at as int] == numbers@[at as int]@);
        if let Some(value) = numbers[at].value {
            if value > i64::MAX as u64 {
                return Err(DatabaseError::IntegerOutOfRange { field: numbers[at].field, value });
            }
        }
        at = at + 1;
    }
    proof {
        lemma_all_fit(all, 0);
        assert forall|i: int| 0 <= i < numbers@.len() implies fits(
            (#[trigger] numbers@[i]).value,
        ) by {
            assert(fits(all[i].value));
        }
    }
    Ok(())
}

/// An optional number as it is stored.
pub open spec fn stored(value: Option<u64>) -> Option<i64> {
    match value {
        Some(number) => Some(number as i64),
        None => None,
    }
}

fn store(value: Option<u64>) -> (result: Option<i64>)
    requires
        fits(value),
    ensures
        result == stored(value),
{
    match value {
        Some(number) => Some(number as i64),
        None => None,
    }
}

/// A number that was stored, with the name of its column.
pub struct StoredNumber {
    pub value: Option<i64>,
    pub field: &'static str,
}

#[verifier::ext_equal]
pub struct StoredNumberView {
    pub value: Option<i64>,
    pub field: Seq<char>,
}

impl View for StoredNumber {
    type V = StoredNumberView;

    open spec fn view(&self) -> StoredNumberView {
        StoredNumberView { value: self.value, field: self.field@ }
    }
}

pub open spec fn not_negative(value: Option<i64>) -> bool {
    match value {
        Some(number) => number >= 0,
        None => true,
    }
}

/// The first stored number, from a position on, that is negative.
pub open spec fn first_negative(numbers: Seq<StoredNumberView>, from: int) -> Option<
    StoredNumberView,
>
    decreases numbers.len() - from,
{
    if from < 0 || from >= numbers.len() {
        None
    } else if !not_negative(numbers[from].value) {
        Some(numbers[from])
    } else {
        first_negative(numbers, from + 1)
    }
}

/// Why some stored numbers cannot be read, where they cannot.
pub open spec fn damage(numbers: Seq<StoredNumberView>) -> Option<DatabaseErrorView> {
    match first_negative(numbers, 0) {
        Some(number) => Some(
            DatabaseErrorView::Conversion {
                field: number.field,
                value: number.value->Some_0,
            },
        ),
        None => None,
    }
}

proof fn lemma_none_negative(numbers: Seq<StoredNumberView>, from: int)
    requires
        0 <= from <= numbers.len(),
        first_negative(numbers, from) is None,
    ensures
        forall|i: int| from <= i < numbers.len() ==> not_negative((#[trigger] numbers[i]).value),
    decreases numbers.len() - from,
{
    if from < numbers.len() {
        lemma_none_negative(numbers, from + 1);
        assert forall|i: int| from <= i < numbers.len() implies not_negative(
            (#[trigger] numbers[i]).value,
        ) by {}
    }
}

fn check_stored(numbers: &Vec<StoredNumber>) -> (result: Result<(), DatabaseError>)
    ensures
        match result {
            Ok(_) => damage(order::views(numbers@)) is None && forall|i: int|
                0 <= i < numbers@.len() ==> not_negative((#[trigger] numbers@[i]).value),
            Err(error) => damage(order::views(numbers@)) == Some(error@),
        },
{
    let ghost all = order::views(numbers@);
    let mut at: usize = 0;
    while at < numbers.len()
        invariant
            at <= numbers@.len(),
            all == order::views(numbers@),
            first_negative(all, 0) == first_negative(all, at as int),
        decreases numbers@.len() - at,
    {
        assert(all[at as int] == numbers@[at as int]@);
        if let Some(value) = numbers[at].value {
            if value < 0 {
                return Err(DatabaseError::Conversion { field: numbers[at].field, value });
            }
        }
        at = at + 1;
    }
    proof {
        lemma_none_negative(all, 0);
        assert forall|i: int| 0 <= i < numbers@.len() implies not_negative(
            (#[trigger] numbers@[i]).value,
        ) by {
            assert(not_negative(all[i].value));
        }
    }
    Ok(())
}

/// An optional stored number as it is read.
pub open spec fn read(value: Option<i64>) -> Option<u64> {
    match value {
        Some(number) => Some(number as u64),
        None => None,
    }
}

fn read_number(value: Option<i64>) -> (result: Option<u64>)
    requires
        not_negative(value),
    ensures
        result == read(value),
{
    match value {
        Some(number) => Some(number as u64),
        None => None,
    }
}

/// A stored number reads back as it was, where it could be stored.
pub proof fn law_stored_numbers_read_back(value: Option<u64>)
    requires
        fits(value),
    ensures
        read(stored(value)) == value,
        not_negative(stored(value)),
{
}

/// What `serde_json::to_string` makes of a list of texts.
pub uninterp spec fn json_of_lines(lines: Seq<Seq<char>>) -> Seq<char>;

/// What `serde_json::from_str` reads as a list of texts, or its complaint.
pub uninterp spec fn lines_of_json(json: Seq<char>) -> Result<Seq<Seq<char>>, Seq<char>>;

/// `serde_json::to_string` on a list of strings never fails, and
/// `serde_json::from_str` reads the list back from what it writes.
#[verifier::external_body]
fn write_lines(lines: &Vec<String>) -> (result: String)
    ensures
        result@ == json_of_lines(order::views(lines@)),
        lines_of_json(result@) is Ok,
        lines_of_json(result@)->Ok_0 == order::views(lines@),
{
    serde_json::to_string(lines).unwrap()
}

/// `serde_json::from_str` on a list of strings; its error is handed on as its
/// own text.
#[verifier::external_body]
fn read_lines(json: &str) -> (result: Result<Vec<String>, String>)
    ensures
        match result {
            Ok(lines) => {
                &&& lines_of_json(json@) is Ok
                &&& lines_of_json(json@)->Ok_0 == order::views(lines@)
            },
            Err(reason) => {
                &&& lines_of_json(json@) is Err
                &&& lines_of_json(json@)->Err_0 == reason@
            },
        },
{
    serde_json::from_str(json).map_err(|error| error.to_string())
}

/// Everything that one analysis found.
#[derive(Clone, Copy)]
pub struct Analysis<'a> {
    pub scan: &'a ScanResult,
    pub findings: &'a [Finding],
    pub duplicates: &'a DuplicateReport,
    pub relationships: &'a RelationshipReport,
    pub ai: &'a AiReport,
}

#[verifier::ext_equal]
pub struct AnalysisView {
    pub scan: ScanView,
    pub findings: Seq<FindingView>,
    pub duplicates: DuplicatesView,
    pub relationships: RelationshipsView,
    pub ai: AiReportView,
}

impl<'a> View for Analysis<'a> {
    type V = AnalysisView;

    open spec fn view(&self) -> AnalysisView {
        AnalysisView {
            scan: self.scan@,
            findings: order::views(self.findings@),
            duplicates: self.duplicates@,
            relationships: self.relationships@,
            ai: self.ai@,
        }
    }
}

/// The numbers of a scan that are looked at before anything is written.
pub open spec fn leading_numbers(scan: ScanView) -> Seq<NumberView> {
    seq![
        NumberView {
            value: Some(scan.started_at_epoch_seconds),
            field: "scan.started_at"@,
        },
        NumberView {
            value: Some(scan.completed_at_epoch_seconds),
            field: "scan.completed_at"@,
        },
        NumberView { value: Some(scan.total_size_bytes), field: "scan.total_size_bytes"@ },
        NumberView {
            value: scan.total_allocated_size_bytes,
            field: "scan.total_allocated_size_bytes"@,
        },
    ]
}

/// Refuses an analysis whose leading numbers cannot be stored.
pub fn validate_analysis_numbers(analysis: Analysis<'_>) -> (result: Result<(), DatabaseError>)
    ensures
        match result {
            Ok(_) => refusal(leading_numbers(analysis@.scan)) is None,
            Err(error) => refusal(leading_numbers(analysis@.scan)) == Some(error@),
        },
{
    let scan = analysis.scan;
    let numbers = vec![
        Number { value: Some(scan.started_at_epoch_seconds), field: "scan.started_at" },
        Number { value: Some(scan.completed_at_epoch_seconds), field: "scan.completed_at" },
        Number { value: Some(scan.total_size_bytes), field: "scan.total_size_bytes" },
        Number {
            value: scan.total_allocated_size_bytes,
            field: "scan.total_allocated_size_bytes",
        },
    ];
    assert(order::views(numbers@) =~= leading_numbers(analysis@.scan));
    check_numbers(&numbers)
}

/// Goes on unless the work was cancelled.
pub fn proceed_unless(cancelled: bool) -> (result: Result<(), DatabaseError>)
    ensures
        result is Err <==> cancelled,
        match result {
            Ok(_) => true,
            Err(error) => error@ == DatabaseErrorView::Cancelled,
        },
{
    if cancelled {
        Err(DatabaseError::Cancelled)
    } else {
        Ok(())
    }
}

/// Goes on unless the token was cancelled when it was looked at.
pub fn check_cancelled(cancellation: &CancellationToken) -> (result: Result<(), DatabaseError>)
    ensures
        progress::given_by(cancellation, seq![result is Err]),
        match result {
            Ok(_) => true,
            Err(error) => error@ == DatabaseErrorView::Cancelled,
        },
{
    let mut signal = TokenSignal::new(cancellation);
    let stop = signal.poll();
    proceed_unless(stop)
}

/// How a model's status is stored: its name, the model and the detail.
pub open spec fn status_parts(status: AiStatusView) -> (
    Seq<char>,
    Option<Seq<char>>,
    Option<Seq<char>>,
) {
    match status {
        AiStatusView::Disabled => ("disabled"@, None, None),
        AiStatusView::NoCandidates => ("no_candidates"@, None, None),
        AiStatusView::Unavailable { reason } => ("unavailable"@, None, Some(reason)),
        AiStatusView::Complete { model } => ("complete"@, Some(model), None),
        AiStatusView::Partial { model } => ("partial"@, Some(model), None),
    }
}

pub fn ai_status_parts(status: &AiStatus) -> (result: (
    &'static str,
    Option<String>,
    Option<String>,
))
    ensures
        (result.0@, model::optional(result.1), model::optional(result.2)) == status_parts(status@),
{
    match status {
        AiStatus::Disabled => ("disabled", None, None),
        AiStatus::NoCandidates => ("no_candidates", None, None),
        AiStatus::Unavailable { reason } => ("unavailable", None, Some(reason.clone())),
        AiStatus::Complete { model } => ("complete", Some(model.clone()), None),
        AiStatus::Partial { model } => ("partial", Some(model.clone()), None),
    }
}

/// What is stored of a scan as a whole.
#[derive(Debug)]
pub struct ScanRow {
    pub root_path: Vec<u8>,
    pub started_at: i64,
    pub completed_at: i64,
    pub total_size_bytes: i64,
    pub total_allocated_size_bytes: Option<i64>,
    pub file_count: i64,
    pub directory_count: i64,
    pub scan_warning_count: i64,
    pub duplicate_warning_count: i64,
    pub recommendation_count: i64,
    pub duplicate_group_count: i64,
    pub relationship_count: i64,
    pub duplicate_recovery_bytes: Option<i64>,
    pub ai_status: String,
    pub ai_model: Option<String>,
    pub ai_status_detail: Option<String>,
    pub ai_candidate_count: i64,
    pub ai_warning_count: i64,
}

#[verifier::ext_equal]
pub struct ScanRowView {
    pub root_path: Seq<u8>,
    pub started_at: i64,
    pub completed_at: i64,
    pub total_size_bytes: i64,
    pub total_allocated_size_bytes: Option<i64>,
    pub file_count: i64,
    pub directory_count: i64,
    pub scan_warning_count: i64,
    pub duplicate_warning_count: i64,
    pub recommendation_count: i64,
    pub duplicate_group_count: i64,
    pub relationship_count: i64,
    pub duplicate_recovery_bytes: Option<i64>,
    pub ai_status: Seq<char>,
    pub ai_model: Option<Seq<char>>,
    pub ai_status_detail: Option<Seq<char>>,
    pub ai_candidate_count: i64,
    pub ai_warning_count: i64,
}

impl View for ScanRow {
    type V = ScanRowView;

    open spec fn view(&self) -> ScanRowView {
        ScanRowView {
            root_path: self.root_path@,
            started_at: self.started_at,
            completed_at: self.completed_at,
            total_size_bytes: self.total_size_bytes,
            total_allocated_size_bytes: self.total_allocated_size_bytes,
            file_count: self.file_count,
            directory_count: self.directory_count,
            scan_warning_count: self.scan_warning_count,
            duplicate_warning_count: self.duplicate_warning_count,
            recommendation_count: self.recommendation_count,
            duplicate_group_count: self.duplicate_group_count,
            relationship_count: self.relationship_count,
            duplicate_recovery_bytes: self.duplicate_recovery_bytes,
            ai_status: self.ai_status@,
            ai_model: model::optional(self.ai_model),
            ai_status_detail: model::optional(self.ai_status_detail),
            ai_candidate_count: self.ai_candidate_count,
            ai_warning_count: self.ai_warning_count,
        }
    }
}

/// The numbers that are stored of an analysis as a whole.
pub open spec fn scan_numbers(analysis: AnalysisView) -> Seq<NumberView> {
    seq![
        NumberView { value: Some(analysis.scan.started_at_epoch_seconds), field: "scan.started_at"@ },
        NumberView { value: Some(analysis.scan.completed_at_epoch_seconds), field: "scan.completed_at"@ },
        NumberView { value: Some(analysis.scan.total_size_bytes), field: "scan.total_size_bytes"@ },
        NumberView { value: analysis.scan.total_allocated_size_bytes, field: "scan.total_allocated_size_bytes"@ },
        NumberView { value: Some(analysis.scan.file_count), field: "scan.file_count"@ },
        NumberView { value: Some(analysis.scan.directory_count), field: "scan.directory_count"@ },
        NumberView { value: Some(analysis.scan.warnings.len() as u64), field: "scan.warning_count"@ },
        NumberView { value: Some(analysis.duplicates.warnings.len() as u64), field: "duplicate.warning_count"@ },
        NumberView { value: Some(analysis.findings.len() as u64), field: "recommendation.count"@ },
        NumberView { value: Some(analysis.duplicates.groups.len() as u64), field: "duplicate.group_count"@ },
        NumberView { value: Some(analysis.relationships.relationships.len() as u64), field: "relationship.count"@ },
        NumberView { value: analysis.duplicates.potential_recovery_allocated_bytes, field: "duplicate.potential_recovery_allocated_bytes"@ },
        NumberView { value: Some(analysis.ai.candidates_considered), field: "ai.candidate_count"@ },
        NumberView { value: Some(analysis.ai.warnings.len() as u64), field: "ai.warning_count"@ },
    ]
}

/// What is stored of an analysis as a whole.
pub open spec fn scan_row(analysis: AnalysisView) -> ScanRowView {
    ScanRowView {
        started_at: analysis.scan.started_at_epoch_seconds as i64,
        completed_at: analysis.scan.completed_at_epoch_seconds as i64,
        total_size_bytes: analysis.scan.total_size_bytes as i64,
        total_allocated_size_bytes: stored(analysis.scan.total_allocated_size_bytes),
        file_count: analysis.scan.file_count as i64,
        directory_count: analysis.scan.directory_count as i64,
        scan_warning_count: (analysis.scan.warnings.len() as u64) as i64,
        duplicate_warning_count: (analysis.duplicates.warnings.len() as u64) as i64,
        recommendation_count: (analysis.findings.len() as u64) as i64,
        duplicate_group_count: (analysis.duplicates.groups.len() as u64) as i64,
        relationship_count: (analysis.relationships.relationships.len() as u64) as i64,
        duplicate_recovery_bytes: stored(analysis.duplicates.potential_recovery_allocated_bytes),
        ai_candidate_count: analysis.ai.candidates_considered as i64,
        ai_warning_count: (analysis.ai.warnings.len() as u64) as i64,
        root_path: analysis.scan.root_spelling,
        ai_status: status_parts(analysis.ai.status).0,
        ai_model: status_parts(analysis.ai.status).1,
        ai_status_detail: status_parts(analysis.ai.status).2,
    }
}

/// Prepares what is stored of an analysis as a whole.
pub fn store_scan(analysis: Analysis<'_>) -> (result: Result<ScanRow, DatabaseError>)
    ensures
        match result {
            Ok(row) => {
                &&& refusal(scan_numbers(analysis@)) is None
                &&& row@ == scan_row(analysis@)
                &&& path::components(row@.root_path) == analysis@.scan.root
            },
            Err(error) => refusal(scan_numbers(analysis@)) == Some(error@),
        },
{
    let parts = ai_status_parts(&analysis.ai.status);
    let numbers = vec![
        Number { value: Some(analysis.scan.started_at_epoch_seconds), field: "scan.started_at" },
        Number { value: Some(analysis.scan.completed_at_epoch_seconds), field: "scan.completed_at" },
        Number { value: Some(analysis.scan.total_size_bytes), field: "scan.total_size_bytes" },
        Number { value: analysis.scan.total_allocated_size_bytes, field: "scan.total_allocated_size_bytes" },
        Number { value: Some(analysis.scan.file_count), field: "scan.file_count" },
        Number { value: Some(analysis.scan.directory_count), field: "scan.directory_count" },
        Number { value: Some(analysis.scan.warnings.len() as u64), field: "scan.warning_count" },
        Number { value: Some(analysis.duplicates.warnings.len() as u64), field: "duplicate.warning_count" },
        Number { value: Some(analysis.findings.len() as u64), field: "recommendation.count" },
        Number { value: Some(analysis.duplicates.groups.len() as u64), field: "duplicate.group_count" },
        Number { value: Some(analysis.relationships.relationships.len() as u64), field: "relationship.count" },
        Number { value: analysis.duplicates.potential_recovery_allocated_bytes, field: "duplicate.potential_recovery_allocated_bytes" },
        Number { value: Some(analysis.ai.candidates_considered), field: "ai.candidate_count" },
        Number { value: Some(analysis.ai.warnings.len() as u64), field: "ai.warning_count" },
    ];
    assert(order::views(numbers@) =~= scan_numbers(analysis@));
    match check_numbers(&numbers) {
        Ok(_) => {},
        Err(error) => {
            return Err(error);
        },
    }
    assert(fits(numbers@[0].value));
    assert(fits(numbers@[1].value));
    assert(fits(numbers@[2].value));
    assert(fits(numbers@[3].value));
    assert(fits(numbers@[4].value));
    assert(fits(numbers@[5].value));
    assert(fits(numbers@[6].value));
    assert(fits(numbers@[7].value));
    assert(fits(numbers@[8].value));
    assert(fits(numbers@[9].value));
    assert(fits(numbers@[10].value));
    assert(fits(numbers@[11].value));
    assert(fits(numbers@[12].value));
    assert(fits(numbers@[13].value));
    Ok(
        ScanRow {
            started_at: analysis.scan.started_at_epoch_seconds as i64,
            completed_at: analysis.scan.completed_at_epoch_seconds as i64,
            total_size_bytes: analysis.scan.total_size_bytes as i64,
            total_allocated_size_bytes: store(analysis.scan.total_allocated_size_bytes),
            file_count: analysis.scan.file_count as i64,
            directory_count: analysis.scan.directory_count as i64,
            scan_warning_count: (analysis.scan.warnings.len() as u64) as i64,
            duplicate_warning_count: (analysis.duplicates.warnings.len() as u64) as i64,
            recommendation_count: (analysis.findings.len() as u64) as i64,
            duplicate_group_count: (analysis.duplicates.groups.len() as u64) as i64,
            relationship_count: (analysis.relationships.relationships.len() as u64) as i64,
            duplicate_recovery_bytes: store(analysis.duplicates.potential_recovery_allocated_bytes),
            ai_candidate_count: analysis.ai.candidates_considered as i64,
            ai_warning_count: (analysis.ai.warnings.len() as u64) as i64,
            root_path: analysis.scan.root.to_bytes(),
            ai_status: parts.0.to_owned(),
            ai_model: parts.1,
            ai_status_detail: parts.2,
        },
    )
}

pub open spec fn volume_of(identity: Option<FileIdentity>) -> Option<u64> {
    match identity {
        Some(known) => Some(known.volume_id),
        None => None,
    }
}

pub open spec fn file_of(identity: Option<FileIdentity>) -> Option<u64> {
    match identity {
        Some(known) => Some(known.file_id),
        None => None,
    }
}

fn volume_number(identity: Option<FileIdentity>) -> (result: Option<u64>)
    ensures
        result == volume_of(identity),
{
    match identity {
        Some(known) => Some(known.volume_id),
        None => None,
    }
}

fn file_number(identity: Option<FileIdentity>) -> (result: Option<u64>)
    ensures
        result == file_of(identity),
{
    match identity {
        Some(known) => Some(known.file_id),
        None => None,
    }
}

fn copy_optional_text(text: &Option<String>) -> (result: Option<String>)
    ensures
        model::optional(result) == model::optional(*text),
{
    match text {
        Some(inner) => Some(inner.clone()),
        None => None,
    }
}

/// What is stored of a scanned item.
#[derive(Debug)]
pub struct ItemRow {
    pub path: Vec<u8>,
    pub kind: String,
    pub size_bytes: i64,
    pub allocated_size_bytes: Option<i64>,
    pub volume_id: Option<i64>,
    pub file_id: Option<i64>,
    pub hard_link_count: Option<i64>,
    pub created_at: Option<i64>,
    pub modified_at: Option<i64>,
    pub modified_at_nanoseconds: Option<i64>,
    pub accessed_at: Option<i64>,
    pub extension: Option<String>,
}

#[verifier::ext_equal]
pub struct ItemRowView {
    pub path: Seq<u8>,
    pub kind: Seq<char>,
    pub size_bytes: i64,
    pub allocated_size_bytes: Option<i64>,
    pub volume_id: Option<i64>,
    pub file_id: Option<i64>,
    pub hard_link_count: Option<i64>,
    pub created_at: Option<i64>,
    pub modified_at: Option<i64>,
    pub modified_at_nanoseconds: Option<i64>,
    pub accessed_at: Option<i64>,
    pub extension: Option<Seq<char>>,
}

impl View for ItemRow {
    type V = ItemRowView;

    open spec fn view(&self) -> ItemRowView {
        ItemRowView {
            path: self.path@,
            kind: self.kind@,
            size_bytes: self.size_bytes,
            allocated_size_bytes: self.allocated_size_bytes,
            volume_id: self.volume_id,
            file_id: self.file_id,
            hard_link_count: self.hard_link_count,
            created_at: self.created_at,
            modified_at: self.modified_at,
            modified_at_nanoseconds: self.modified_at_nanoseconds,
            accessed_at: self.accessed_at,
            extension: model::optional(self.extension),
        }
    }
}

/// The numbers that are stored of an item, in the order they are looked at.
pub open spec fn item_numbers(item: ItemView) -> Seq<NumberView> {
    seq![
        NumberView { value: volume_of(item.file_identity), field: "item.volume_id"@ },
        NumberView { value: file_of(item.file_identity), field: "item.file_id"@ },
        NumberView { value: Some(item.size_bytes), field: "item.size_bytes"@ },
        NumberView { value: item.allocated_size_bytes, field: "item.allocated_size_bytes"@ },
        NumberView { value: item.hard_link_count, field: "item.hard_link_count"@ },
        NumberView { value: item.created_at_epoch_seconds, field: "item.created_at"@ },
        NumberView { value: item.modified_at_epoch_seconds, field: "item.modified_at"@ },
        NumberView { value: item.modified_at_epoch_nanoseconds, field: "item.modified_at_nanoseconds"@ },
        NumberView { value: item.accessed_at_epoch_seconds, field: "item.accessed_at"@ },
    ]
}

/// What is stored of an item.
pub open spec fn item_row(item: ItemView) -> ItemRowView {
    ItemRowView {
        volume_id: stored(volume_of(item.file_identity)),
        file_id: stored(file_of(item.file_identity)),
        size_bytes: item.size_bytes as i64,
        allocated_size_bytes: stored(item.allocated_size_bytes),
        hard_link_count: stored(item.hard_link_count),
        created_at: stored(item.created_at_epoch_seconds),
        modified_at: stored(item.modified_at_epoch_seconds),
        modified_at_nanoseconds: stored(item.modified_at_epoch_nanoseconds),
        accessed_at: stored(item.accessed_at_epoch_seconds),
        path: item.spelling,
        kind: item.kind.spec_name(),
        extension: item.extension,
    }
}

/// Prepares what is stored of an item.
pub fn store_item(item: &ScannedItem) -> (result: Result<ItemRow, DatabaseError>)
    ensures
        match result {
            Ok(row) => refusal(item_numbers(item@)) is None && row@ == item_row(item@),
            Err(error) => refusal(item_numbers(item@)) == Some(error@),
        },
{
    let numbers = vec![
        Number { value: volume_number(item.file_identity), field: "item.volume_id" },
        Number { value: file_number(item.file_identity), field: "item.file_id" },
        Number { value: Some(item.size_bytes), field: "item.size_bytes" },
        Number { value: item.allocated_size_bytes, field: "item.allocated_size_bytes" },
        Number { value: item.hard_link_count, field: "item.hard_link_count" },
        Number { value: item.created_at_epoch_seconds, field: "item.created_at" },
        Number { value: item.modified_at_epoch_seconds, field: "item.modified_at" },
        Number { value: item.modified_at_epoch_nanoseconds, field: "item.modified_at_nanoseconds" },
        Number { value: item.accessed_at_epoch_seconds, field: "item.accessed_at" },
    ];
    assert(order::views(numbers@) =~= item_numbers(item@));
    match check_numbers(&numbers) {
        Ok(_) => {},
        Err(error) => {
            return Err(error);
        },
    }
    assert(fits(numbers@[0].value));
    assert(fits(numbers@[1].value));
    assert(fits(numbers@[2].value));
    assert(fits(numbers@[3].value));
    assert(fits(numbers@[4].value));
    assert(fits(numbers@[5].value));
    assert(fits(numbers@[6].value));
    assert(fits(numbers@[7].value));
    assert(fits(numbers@[8].value));
    Ok(
        ItemRow {
            volume_id: store(volume_number(item.file_identity)),
            file_id: store(file_number(item.file_identity)),
            size_bytes: item.size_bytes as i64,
            allocated_size_bytes: store(item.allocated_size_bytes),
            hard_link_count: store(item.hard_link_count),
            created_at: store(item.created_at_epoch_seconds),
            modified_at: store(item.modified_at_epoch_seconds),
            modified_at_nanoseconds: store(item.modified_at_epoch_nanoseconds),
            accessed_at: store(item.accessed_at_epoch_seconds),
            path: item.path.to_bytes(),
            kind: item.kind.name().to_owned(),
            extension: copy_optional_text(&item.extension),
        },
    )
}

/// What is stored of a finding.
#[derive(Debug)]
pub struct FindingRow {
    pub path: Vec<u8>,
    pub category: String,
    pub potential_recovery_bytes: i64,
    pub confidence: Confidence,
    pub risk: String,
    pub suggested_action: String,
    pub evidence_json: String,
}

#[verifier::ext_equal]
pub struct FindingRowView {
    pub path: Seq<u8>,
    pub category: Seq<char>,
    pub potential_recovery_bytes: i64,
    pub confidence: Confidence,
    pub risk: Seq<char>,
    pub suggested_action: Seq<char>,
    pub evidence_json: Seq<char>,
}

impl View for FindingRow {
    type V = FindingRowView;

    open spec fn view(&self) -> FindingRowView {
        FindingRowView {
            path: self.path@,
            category: self.category@,
            potential_recovery_bytes: self.potential_recovery_bytes,
            confidence: self.confidence,
            risk: self.risk@,
            suggested_action: self.suggested_action@,
            evidence_json: self.evidence_json@,
        }
    }
}

/// The numbers that are stored of a finding.
pub open spec fn finding_numbers(finding: FindingView) -> Seq<NumberView> {
    seq![
        NumberView { value: Some(finding.potential_recovery_bytes), field: "finding.potential_recovery_bytes"@ },
    ]
}

/// What is stored of a finding.
pub open spec fn finding_row(finding: FindingView) -> FindingRowView {
    FindingRowView {
        potential_recovery_bytes: finding.potential_recovery_bytes as i64,
        path: finding.spelling,
        category: finding.category.spec_name(),
        confidence: finding.confidence,
        risk: finding.risk.spec_name(),
        suggested_action: finding.suggested_action.spec_name(),
        evidence_json: json_of_lines(finding.evidence),
    }
}

/// Prepares what is stored of a finding, which reads back as it was.
pub fn store_finding(finding: &Finding) -> (result: Result<FindingRow, DatabaseError>)
    ensures
        match result {
            Ok(row) => {
                &&& refusal(finding_numbers(finding@)) is None
                &&& row@ == finding_row(finding@)
                &&& finding_read(row@) == Ok::<FindingView, DatabaseErrorView>(finding@)
            },
            Err(error) => refusal(finding_numbers(finding@)) == Some(error@),
        },
{
    let numbers = vec![
        Number { value: Some(finding.potential_recovery_bytes), field: "finding.potential_recovery_bytes" },
    ];
    assert(order::views(numbers@) =~= finding_numbers(finding@));
    match check_numbers(&numbers) {
        Ok(_) => {},
        Err(error) => {
            return Err(error);
        },
    }
    assert(fits(numbers@[0].value));
    proof {
        finding.category.law_names_read_back();
        finding.risk.law_names_read_back();
        finding.suggested_action.law_names_read_back();
    }
    Ok(
        FindingRow {
            potential_recovery_bytes: finding.potential_recovery_bytes as i64,
            path: finding.path.to_bytes(),
            category: finding.category.name().to_owned(),
            confidence: finding.confidence,
            risk: finding.risk.name().to_owned(),
            suggested_action: finding.suggested_action.name().to_owned(),
            evidence_json: write_lines(&finding.evidence),
        },
    )
}

/// What is stored of a group of duplicates beside its entries.
#[derive(Debug)]
pub struct GroupRow {
    pub blake3_hash: String,
    pub size_bytes_per_file: i64,
    pub unique_file_count: i64,
    pub protected_file_count: i64,
    pub logical_duplicate_bytes: i64,
    pub potential_recovery_bytes: Option<i64>,
}

#[verifier::ext_equal]
pub struct GroupRowView {
    pub blake3_hash: Seq<char>,
    pub size_bytes_per_file: i64,
    pub unique_file_count: i64,
    pub protected_file_count: i64,
    pub logical_duplicate_bytes: i64,
    pub potential_recovery_bytes: Option<i64>,
}

impl View for GroupRow {
    type V = GroupRowView;

    open spec fn view(&self) -> GroupRowView {
        GroupRowView {
            blake3_hash: self.blake3_hash@,
            size_bytes_per_file: self.size_bytes_per_file,
            unique_file_count: self.unique_file_count,
            protected_file_count: self.protected_file_count,
            logical_duplicate_bytes: self.logical_duplicate_bytes,
            potential_recovery_bytes: self.potential_recovery_bytes,
        }
    }
}

/// The numbers that are stored of a group of duplicates.
pub open spec fn group_numbers(group: GroupView) -> Seq<NumberView> {
    seq![
        NumberView { value: Some(group.size_bytes_per_file), field: "duplicate.size_bytes_per_file"@ },
        NumberView { value: Some(group.unique_file_count), field: "duplicate.unique_file_count"@ },
        NumberView { value: Some(group.protected_file_count), field: "duplicate.protected_file_count"@ },
        NumberView { value: Some(group.logical_duplicate_bytes), field: "duplicate.logical_duplicate_bytes"@ },
        NumberView { value: group.potential_recovery_allocated_bytes, field: "duplicate.potential_recovery_allocated_bytes"@ },
    ]
}

/// What is stored of a group of duplicates beside its entries.
pub open spec fn group_row(group: GroupView) -> GroupRowView {
    GroupRowView {
        size_bytes_per_file: group.size_bytes_per_file as i64,
        unique_file_count: group.unique_file_count as i64,
        protected_file_count: group.protected_file_count as i64,
        logical_duplicate_bytes: group.logical_duplicate_bytes as i64,
        potential_recovery_bytes: stored(group.potential_recovery_allocated_bytes),
        blake3_hash: group.blake3_hash,
    }
}

/// Prepares what is stored of a group of duplicates beside its entries, which
/// reads back as it was.
pub fn store_group(group: &DuplicateGroup) -> (result: Result<GroupRow, DatabaseError>)
    ensures
        match result {
            Ok(row) => {
                &&& refusal(group_numbers(group@)) is None
                &&& row@ == group_row(group@)
                &&& damage(stored_group_numbers(row@)) is None
                &&& group_read(row@, group@.entries) == group@
            },
            Err(error) => refusal(group_numbers(group@)) == Some(error@),
        },
{
    let numbers = vec![
        Number { value: Some(group.size_bytes_per_file), field: "duplicate.size_bytes_per_file" },
        Number { value: Some(group.unique_file_count), field: "duplicate.unique_file_count" },
        Number { value: Some(group.protected_file_count), field: "duplicate.protected_file_count" },
        Number { value: Some(group.logical_duplicate_bytes), field: "duplicate.logical_duplicate_bytes" },
        Number { value: group.potential_recovery_allocated_bytes, field: "duplicate.potential_recovery_allocated_bytes" },
    ];
    assert(order::views(numbers@) =~= group_numbers(group@));
    match check_numbers(&numbers) {
        Ok(_) => {},
        Err(error) => {
            return Err(error);
        },
    }
    assert(fits(numbers@[0].value));
    assert(fits(numbers@[1].value));
    assert(fits(numbers@[2].value));
    assert(fits(numbers@[3].value));
    assert(fits(numbers@[4].value));
    proof {
        law_stored_groups_read_back(group@);
    }
    Ok(
        GroupRow {
            size_bytes_per_file: group.size_bytes_per_file as i64,
            unique_file_count: group.unique_file_count as i64,
            protected_file_count: group.protected_file_count as i64,
            logical_duplicate_bytes: group.logical_duplicate_bytes as i64,
            potential_recovery_bytes: store(group.potential_recovery_allocated_bytes),
            blake3_hash: group.blake3_hash.clone(),
        },
    )
}

/// What is stored of an entry of a group of duplicates.
#[derive(Debug)]
pub struct EntryRow {
    pub path: Vec<u8>,
    pub volume_id: Option<i64>,
    pub file_id: Option<i64>,
    pub allocated_size_bytes: Option<i64>,
    pub hard_link_count: Option<i64>,
    pub protected: bool,
}

#[verifier::ext_equal]
pub struct EntryRowView {
    pub path: Seq<u8>,
    pub volume_id: Option<i64>,
    pub file_id: Option<i64>,
    pub allocated_size_bytes: Option<i64>,
    pub hard_link_count: Option<i64>,
    pub protected: bool,
}

impl View for EntryRow {
    type V = EntryRowView;

    open spec fn view(&self) -> EntryRowView {
        EntryRowView {
            path: self.path@,
            volume_id: self.volume_id,
            file_id: self.file_id,
            allocated_size_bytes: self.allocated_size_bytes,
            hard_link_count: self.hard_link_count,
            protected: self.protected,
        }
    }
}

/// The numbers that are stored of an entry.
pub open spec fn entry_numbers(entry: EntryView) -> Seq<NumberView> {
    seq![
        NumberView { value: volume_of(entry.file_identity), field: "duplicate.volume_id"@ },
        NumberView { value: file_of(entry.file_identity), field: "duplicate.file_id"@ },
        NumberView { value: entry.allocated_size_bytes, field: "duplicate.allocated_size_bytes"@ },
        NumberView { value: entry.hard_link_count, field: "duplicate.hard_link_count"@ },
    ]
}

/// What is stored of an entry.
pub open spec fn entry_row(entry: EntryView) -> EntryRowView {
    EntryRowView {
        volume_id: stored(volume_of(entry.file_identity)),
        file_id: stored(file_of(entry.file_identity)),
        allocated_size_bytes: stored(entry.allocated_size_bytes),
        hard_link_count: stored(entry.hard_link_count),
        path: entry.spelling,
        protected: entry.protected,
    }
}

/// Prepares what is stored of an entry, which reads back as it was.
pub fn store_entry(entry: &DuplicateEntry) -> (result: Result<EntryRow, DatabaseError>)
    ensures
        match result {
            Ok(row) => {
                &&& refusal(entry_numbers(entry@)) is None
                &&& row@ == entry_row(entry@)
                &&& damage(stored_entry_numbers(row@)) is None
                &&& entry_read(row@) == entry@
            },
            Err(error) => refusal(entry_numbers(entry@)) == Some(error@),
        },
{
    let numbers = vec![
        Number { value: volume_number(entry.file_identity), field: "duplicate.volume_id" },
        Number { value: file_number(entry.file_identity), field: "duplicate.file_id" },
        Number { value: entry.allocated_size_bytes, field: "duplicate.allocated_size_bytes" },
        Number { value: entry.hard_link_count, field: "duplicate.hard_link_count" },
    ];
    assert(order::views(numbers@) =~= entry_numbers(entry@));
    match check_numbers(&numbers) {
        Ok(_) => {},
        Err(error) => {
            return Err(error);
        },
    }
    assert(fits(numbers@[0].value));
    assert(fits(numbers@[1].value));
    assert(fits(numbers@[2].value));
    assert(fits(numbers@[3].value));
    let written = entry.path.to_bytes();
    proof {
        law_stored_entries_read_back(entry@);
    }
    Ok(
        EntryRow {
            volume_id: store(volume_number(entry.file_identity)),
            file_id: store(file_number(entry.file_identity)),
            allocated_size_bytes: store(entry.allocated_size_bytes),
            hard_link_count: store(entry.hard_link_count),
            path: written,
            protected: entry.protected,
        },
    )
}

/// What is stored of a relationship.
#[derive(Debug)]
pub struct RelationshipRow {
    pub kind: String,
    pub source_path: Vec<u8>,
    pub target_path: Vec<u8>,
    pub confidence: Confidence,
    pub evidence_json: String,
}

#[verifier::ext_equal]
pub struct RelationshipRowView {
    pub kind: Seq<char>,
    pub source_path: Seq<u8>,
    pub target_path: Seq<u8>,
    pub confidence: Confidence,
    pub evidence_json: Seq<char>,
}

impl View for RelationshipRow {
    type V = RelationshipRowView;

    open spec fn view(&self) -> RelationshipRowView {
        RelationshipRowView {
            kind: self.kind@,
            source_path: self.source_path@,
            target_path: self.target_path@,
            confidence: self.confidence,
            evidence_json: self.evidence_json@,
        }
    }
}

/// What is stored of a relationship.
pub open spec fn relationship_row(relationship: RelationshipView) -> RelationshipRowView {
    RelationshipRowView {
        kind: relationship.kind.spec_name(),
        source_path: relationship.source_spelling,
        target_path: relationship.target_spelling,
        confidence: relationship.confidence,
        evidence_json: json_of_lines(relationship.evidence),
    }
}

/// Prepares what is stored of a relationship, which reads back as it was.
pub fn store_relationship(relationship: &Relationship) -> (result: RelationshipRow)
    ensures
        result@ == relationship_row(relationship@),
        relationship_read(result@) == Ok::<RelationshipView, DatabaseErrorView>(relationship@),
{
    proof {
        relationship.kind.law_names_read_back();
    }
    RelationshipRow {
        kind: relationship.kind.name().to_owned(),
        source_path: relationship.source_path.to_bytes(),
        target_path: relationship.target_path.to_bytes(),
        confidence: relationship.confidence,
        evidence_json: write_lines(&relationship.evidence),
    }
}

/// What is stored of an explanation by a model.
#[derive(Debug)]
pub struct ExplanationRow {
    pub path: Vec<u8>,
    pub category: String,
    pub risk: String,
    pub confidence: Confidence,
    pub reason: String,
    pub suggested_action: String,
}

#[verifier::ext_equal]
pub struct ExplanationRowView {
    pub path: Seq<u8>,
    pub category: Seq<char>,
    pub risk: Seq<char>,
    pub confidence: Confidence,
    pub reason: Seq<char>,
    pub suggested_action: Seq<char>,
}

impl View for ExplanationRow {
    type V = ExplanationRowView;

    open spec fn view(&self) -> ExplanationRowView {
        ExplanationRowView {
            path: self.path@,
            category: self.category@,
            risk: self.risk@,
            confidence: self.confidence,
            reason: self.reason@,
            suggested_action: self.suggested_action@,
        }
    }
}

/// What is stored of an explanation.
pub open spec fn explanation_row(explanation: ExplanationView) -> ExplanationRowView {
    ExplanationRowView {
        path: explanation.spelling,
        category: explanation.category.spec_name(),
        risk: explanation.risk.spec_name(),
        confidence: explanation.confidence,
        reason: explanation.reason,
        suggested_action: explanation.suggested_action.spec_name(),
    }
}

/// Prepares what is stored of an explanation, which reads back as it was.
pub fn store_explanation(explanation: &AiExplanation) -> (result: ExplanationRow)
    ensures
        result@ == explanation_row(explanation@),
        explanation_read(result@) == Ok::<ExplanationView, DatabaseErrorView>(explanation@),
{
    let written = explanation.path.to_bytes();
    proof {
        law_stored_explanations_read_back(explanation@);
    }
    ExplanationRow {
        path: written,
        category: explanation.category.name().to_owned(),
        risk: explanation.risk.name().to_owned(),
        confidence: explanation.confidence,
        reason: explanation.reason.clone(),
        suggested_action: explanation.suggested_action.name().to_owned(),
    }
}

/// What is stored of a warning.
#[derive(Debug)]
pub struct WarningRow {
    pub source: String,
    pub path: Option<Vec<u8>>,
    pub kind: Option<String>,
    pub message: String,
}

#[verifier::ext_equal]
pub struct WarningRowView {
    pub source: Seq<char>,
    pub path: Option<Seq<u8>>,
    pub kind: Option<Seq<char>>,
    pub message: Seq<char>,
}

impl View for WarningRow {
    type V = WarningRowView;

    open spec fn view(&self) -> WarningRowView {
        WarningRowView {
            source: self.source@,
            path: model::optional(self.path),
            kind: model::optional(self.kind),
            message: self.message@,
        }
    }
}

/// What is stored of a warning of the scan.
pub open spec fn scan_warning_row(warning: ScanWarningView) -> WarningRowView {
    WarningRowView {
        source: "scan"@,
        path: match warning.path {
            Some(known) => Some(known.spelling),
            None => None,
        },
        kind: None,
        message: warning.message,
    }
}

/// What is stored of a warning of the search for duplicates.
pub open spec fn duplicate_warning_row(warning: DuplicateWarningView) -> WarningRowView {
    WarningRowView {
        source: "duplicate"@,
        path: Some(warning.spelling),
        kind: Some(warning.kind.spec_name()),
        message: warning.message,
    }
}

/// What is stored of the warnings of an analysis: those of the scan, then
/// those of the search for duplicates.
pub open spec fn warning_rows(analysis: AnalysisView) -> Seq<WarningRowView> {
    Seq::new(
        analysis.scan.warnings.len() + analysis.duplicates.warnings.len(),
        |i: int|
            if i < analysis.scan.warnings.len() {
                scan_warning_row(analysis.scan.warnings[i])
            } else {
                duplicate_warning_row(
                    analysis.duplicates.warnings[i - analysis.scan.warnings.len()],
                )
            },
    )
}

/// What history tells of the warnings of an analysis.
pub open spec fn warnings_told(analysis: AnalysisView) -> Seq<StoredWarningView> {
    Seq::new(
        analysis.scan.warnings.len() + analysis.duplicates.warnings.len(),
        |i: int|
            if i < analysis.scan.warnings.len() {
                StoredWarningView {
                    source: "scan"@,
                    path: analysis.scan.warnings[i].path,
                    kind: None,
                    message: analysis.scan.warnings[i].message,
                }
            } else {
                let warning = analysis.duplicates.warnings[i - analysis.scan.warnings.len()];
                StoredWarningView {
                    source: "duplicate"@,
                    path: Some(
                        GivenView { path: warning.path, spelling: warning.spelling },
                    ),
                    kind: Some(warning.kind.spec_name()),
                    message: warning.message,
                }
            },
    )
}

/// Prepares what is stored of the warnings of an analysis, which read back with
/// their source and, where they have one, the path and the name of their kind.
pub fn store_warnings(analysis: Analysis<'_>) -> (result: Vec<WarningRow>)
    ensures
        order::views(result@) == warning_rows(analysis@),
        warnings_told(analysis@) == Seq::new(
            warning_rows(analysis@).len(),
            |i: int| warning_read(warning_rows(analysis@)[i]),
        ),
{
    let ghost wanted = warning_rows(analysis@);
    let ghost told = warnings_told(analysis@);
    let mut rows: Vec<WarningRow> = Vec::new();
    let mut at: usize = 0;
    while at < analysis.scan.warnings.len()
        invariant
            at <= analysis.scan.warnings@.len(),
            wanted == warning_rows(analysis@),
            order::views(rows@) == wanted.take(at as int),
            told == warnings_told(analysis@),
            forall|i: int| 0 <= i < at ==> #[trigger] told[i] == warning_read(wanted[i]),
        decreases analysis.scan.warnings@.len() - at,
    {
        let warning = &analysis.scan.warnings[at];
        let row = WarningRow {
            source: "scan".to_owned(),
            path: match &warning.path {
                Some(known) => Some(known.to_bytes()),
                None => None,
            },
            kind: None,
            message: warning.message.clone(),
        };
        assert(analysis@.scan.warnings[at as int] == warning@);
        assert(row@ =~= scan_warning_row(warning@));
        assert(told[at as int] =~= warning_read(wanted[at as int]));
        proof {
            order::lemma_views_push(rows@, row);
        }
        rows.push(row);
        assert(wanted.take(at + 1) =~= wanted.take(at as int).push(wanted[at as int]));
        at = at + 1;
    }
    let mut next: usize = 0;
    while next < analysis.duplicates.warnings.len()
        invariant
            next <= analysis.duplicates.warnings@.len(),
            wanted == warning_rows(analysis@),
            order::views(rows@) == wanted.take(analysis.scan.warnings@.len() + next),
            told == warnings_told(analysis@),
            forall|i: int|
                0 <= i < analysis.scan.warnings@.len() + next ==> #[trigger] told[i]
                    == warning_read(wanted[i]),
        decreases analysis.duplicates.warnings@.len() - next,
    {
        let warning = &analysis.duplicates.warnings[next];
        let row = WarningRow {
            source: "duplicate".to_owned(),
            path: Some(warning.path.to_bytes()),
            kind: Some(warning.kind.name().to_owned()),
            message: warning.message.clone(),
        };
        let ghost place = analysis.scan.warnings@.len() + next;
        assert(analysis@.duplicates.warnings[next as int] == warning@);
        assert(row@ =~= duplicate_warning_row(warning@));
        assert(told[place] =~= warning_read(wanted[place]));
        proof {
            order::lemma_views_push(rows@, row);
        }
        rows.push(row);
        assert(wanted.take(place + 1) =~= wanted.take(place).push(wanted[place]));
        next = next + 1;
    }
    assert(wanted.take(wanted.len() as int) =~= wanted);
    rows
}

/// What a stored name stands for, or that it is unknown.
pub open spec fn name_read<T: Named>(name: Seq<char>) -> Result<T, DatabaseErrorView> {
    match T::named(name) {
        Some(value) => Ok(value),
        None => Err(DatabaseErrorView::UnknownName { name, expected: T::names() }),
    }
}

fn read_name<T: Named>(name: &str) -> (result: Result<T, DatabaseError>)
    ensures
        match result {
            Ok(value) => name_read::<T>(name@) == Ok::<T, DatabaseErrorView>(value),
            Err(error) => name_read::<T>(name@) == Err::<T, DatabaseErrorView>(error@),
        },
{
    match T::from_name(name) {
        Some(value) => Ok(value),
        None => Err(
            DatabaseError::UnknownName { name: name.to_owned(), expected: T::all_names() },
        ),
    }
}

/// The evidence that was stored, or why it cannot be read.
pub open spec fn evidence_read(json: Seq<char>) -> Result<Seq<Seq<char>>, DatabaseErrorView> {
    match lines_of_json(json) {
        Ok(lines) => Ok(lines),
        Err(reason) => Err(DatabaseErrorView::InvalidEvidence(reason)),
    }
}

fn read_evidence(json: &str) -> (result: Result<Vec<String>, DatabaseError>)
    ensures
        match result {
            Ok(lines) => evidence_read(json@) == Ok::<Seq<Seq<char>>, DatabaseErrorView>(
                order::views(lines@),
            ),
            Err(error) => evidence_read(json@) == Err::<Seq<Seq<char>>, DatabaseErrorView>(error@),
        },
{
    match read_lines(json) {
        Ok(lines) => Ok(lines),
        Err(reason) => Err(DatabaseError::InvalidEvidence(reason)),
    }
}

/// The finding that a row holds, or the first thing wrong with the row.
pub open spec fn finding_read(row: FindingRowView) -> Result<FindingView, DatabaseErrorView> {
    match name_read::<FindingCategory>(row.category) {
        Err(error) => Err(error),
        Ok(category) => if row.potential_recovery_bytes < 0 {
            Err(
                DatabaseErrorView::Conversion {
                    field: "finding.potential_recovery_bytes"@,
                    value: row.potential_recovery_bytes,
                },
            )
        } else {
            match (
                name_read::<RiskLevel>(row.risk),
                evidence_read(row.evidence_json),
                name_read::<SuggestedAction>(row.suggested_action),
            ) {
                (Err(error), _, _) => Err(error),
                (_, Err(error), _) => Err(error),
                (_, _, Err(error)) => Err(error),
                (Ok(risk), Ok(evidence), Ok(suggested_action)) => Ok(
                    FindingView {
                        category,
                        path: path::components(row.path),
                        spelling: row.path,
                        potential_recovery_bytes: row.potential_recovery_bytes as u64,
                        confidence: row.confidence,
                        risk,
                        evidence,
                        suggested_action,
                    },
                ),
            }
        },
    }
}

/// The finding that a row holds.
pub fn read_finding(row: &FindingRow) -> (result: Result<Finding, DatabaseError>)
    ensures
        match result {
            Ok(finding) => finding_read(row@) == Ok::<FindingView, DatabaseErrorView>(finding@),
            Err(error) => finding_read(row@) == Err::<FindingView, DatabaseErrorView>(error@),
        },
{
    let category = match read_name::<FindingCategory>(row.category.as_str()) {
        Ok(category) => category,
        Err(error) => {
            return Err(error);
        },
    };
    if row.potential_recovery_bytes < 0 {
        return Err(
            DatabaseError::Conversion {
                field: "finding.potential_recovery_bytes",
                value: row.potential_recovery_bytes,
            },
        );
    }
    let risk = match read_name::<RiskLevel>(row.risk.as_str()) {
        Ok(risk) => risk,
        Err(error) => {
            return Err(error);
        },
    };
    let evidence = match read_evidence(row.evidence_json.as_str()) {
        Ok(evidence) => evidence,
        Err(error) => {
            return Err(error);
        },
    };
    let suggested_action = match read_name::<SuggestedAction>(row.suggested_action.as_str()) {
        Ok(action) => action,
        Err(error) => {
            return Err(error);
        },
    };
    Ok(
        Finding {
            category,
            path: FilePath::from_bytes(row.path.as_slice()),
            potential_recovery_bytes: row.potential_recovery_bytes as u64,
            confidence: row.confidence,
            risk,
            evidence,
            suggested_action,
        },
    )
}

/// The numbers of a stored entry, in the order they are looked at.
pub open spec fn stored_entry_numbers(row: EntryRowView) -> Seq<StoredNumberView> {
    seq![
        StoredNumberView { value: row.volume_id, field: "duplicate.volume_id"@ },
        StoredNumberView { value: row.file_id, field: "duplicate.file_id"@ },
        StoredNumberView {
            value: row.allocated_size_bytes,
            field: "duplicate.allocated_size_bytes"@,
        },
        StoredNumberView { value: row.hard_link_count, field: "duplicate.hard_link_count"@ },
    ]
}

/// The identity of a file, where both halves of it were stored.
pub open spec fn identity_read(volume_id: Option<i64>, file_id: Option<i64>) -> Option<
    FileIdentity,
> {
    match (volume_id, file_id) {
        (Some(volume), Some(file)) => Some(
            FileIdentity { volume_id: volume as u64, file_id: file as u64 },
        ),
        _ => None,
    }
}

/// The entry that a sound row holds.
pub open spec fn entry_read(row: EntryRowView) -> EntryView {
    EntryView {
        path: path::components(row.path),
        spelling: row.path,
        file_identity: identity_read(row.volume_id, row.file_id),
        allocated_size_bytes: read(row.allocated_size_bytes),
        hard_link_count: read(row.hard_link_count),
        protected: row.protected,
    }
}

/// The entry that a row holds.
pub fn read_entry(row: &EntryRow) -> (result: Result<DuplicateEntry, DatabaseError>)
    ensures
        match result {
            Ok(entry) => damage(stored_entry_numbers(row@)) is None && entry@ == entry_read(row@),
            Err(error) => damage(stored_entry_numbers(row@)) == Some(error@),
        },
{
    let numbers = vec![
        StoredNumber { value: row.volume_id, field: "duplicate.volume_id" },
        StoredNumber { value: row.file_id, field: "duplicate.file_id" },
        StoredNumber { value: row.allocated_size_bytes, field: "duplicate.allocated_size_bytes" },
        StoredNumber { value: row.hard_link_count, field: "duplicate.hard_link_count" },
    ];
    assert(order::views(numbers@) =~= stored_entry_numbers(row@));
    match check_stored(&numbers) {
        Ok(_) => {},
        Err(error) => {
            return Err(error);
        },
    }
    assert(not_negative(numbers@[0].value));
    assert(not_negative(numbers@[1].value));
    assert(not_negative(numbers@[2].value));
    assert(not_negative(numbers@[3].value));
    Ok(
        DuplicateEntry {
            path: FilePath::from_bytes(row.path.as_slice()),
            file_identity: match (row.volume_id, row.file_id) {
                (Some(volume), Some(file)) => Some(
                    FileIdentity { volume_id: volume as u64, file_id: file as u64 },
                ),
                _ => None,
            },
            allocated_size_bytes: read_number(row.allocated_size_bytes),
            hard_link_count: read_number(row.hard_link_count),
            protected: row.protected,
        },
    )
}

/// The numbers of a stored group, in the order they are looked at.
pub open spec fn stored_group_numbers(row: GroupRowView) -> Seq<StoredNumberView> {
    seq![
        StoredNumberView {
            value: Some(row.size_bytes_per_file),
            field: "duplicate.size_bytes_per_file"@,
        },
        StoredNumberView {
            value: Some(row.unique_file_count),
            field: "duplicate.unique_file_count"@,
        },
        StoredNumberView {
            value: Some(row.protected_file_count),
            field: "duplicate.protected_file_count"@,
        },
        StoredNumberView {
            value: Some(row.logical_duplicate_bytes),
            field: "duplicate.logical_duplicate_bytes"@,
        },
        StoredNumberView {
            value: row.potential_recovery_bytes,
            field: "duplicate.potential_recovery_allocated_bytes"@,
        },
    ]
}

/// The group that a sound row and the entries read beside it make up.
pub open spec fn group_read(row: GroupRowView, entries: Seq<EntryView>) -> GroupView {
    GroupView {
        blake3_hash: row.blake3_hash,
        size_bytes_per_file: row.size_bytes_per_file as u64,
        entries,
        unique_file_count: row.unique_file_count as u64,
        protected_file_count: row.protected_file_count as u64,
        logical_duplicate_bytes: row.logical_duplicate_bytes as u64,
        potential_recovery_allocated_bytes: read(row.potential_recovery_bytes),
    }
}

/// The group that a row and the entries read beside it make up.
pub fn read_group(row: &GroupRow, entries: Vec<DuplicateEntry>) -> (result: Result<
    DuplicateGroup,
    DatabaseError,
>)
    ensures
        match result {
            Ok(group) => damage(stored_group_numbers(row@)) is None && group@ == group_read(
                row@,
                order::views(entries@),
            ),
            Err(error) => damage(stored_group_numbers(row@)) == Some(error@),
        },
{
    let numbers = vec![
        StoredNumber {
            value: Some(row.size_bytes_per_file),
            field: "duplicate.size_bytes_per_file",
        },
        StoredNumber { value: Some(row.unique_file_count), field: "duplicate.unique_file_count" },
        StoredNumber {
            value: Some(row.protected_file_count),
            field: "duplicate.protected_file_count",
        },
        StoredNumber {
            value: Some(row.logical_duplicate_bytes),
            field: "duplicate.logical_duplicate_bytes",
        },
        StoredNumber {
            value: row.potential_recovery_bytes,
            field: "duplicate.potential_recovery_allocated_bytes",
        },
    ];
    assert(order::views(numbers@) =~= stored_group_numbers(row@));
    match check_stored(&numbers) {
        Ok(_) => {},
        Err(error) => {
            return Err(error);
        },
    }
    assert(not_negative(numbers@[0].value));
    assert(not_negative(numbers@[1].value));
    assert(not_negative(numbers@[2].value));
    assert(not_negative(numbers@[3].value));
    assert(not_negative(numbers@[4].value));
    Ok(
        DuplicateGroup {
            blake3_hash: row.blake3_hash.clone(),
            size_bytes_per_file: row.size_bytes_per_file as u64,
            entries,
            unique_file_count: row.unique_file_count as u64,
            protected_file_count: row.protected_file_count as u64,
            logical_duplicate_bytes: row.logical_duplicate_bytes as u64,
            potential_recovery_allocated_bytes: read_number(row.potential_recovery_bytes),
        },
    )
}

/// The relationship that a row holds, or the first thing wrong with the row.
pub open spec fn relationship_read(row: RelationshipRowView) -> Result<
    RelationshipView,
    DatabaseErrorView,
> {
    match (name_read::<RelationshipKind>(row.kind), evidence_read(row.evidence_json)) {
        (Err(error), _) => Err(error),
        (_, Err(error)) => Err(error),
        (Ok(kind), Ok(evidence)) => Ok(
            RelationshipView {
                kind,
                source_path: path::components(row.source_path),
                source_spelling: row.source_path,
                target_path: path::components(row.target_path),
                target_spelling: row.target_path,
                confidence: row.confidence,
                evidence,
            },
        ),
    }
}

/// The relationship that a row holds.
pub fn read_relationship(row: &RelationshipRow) -> (result: Result<Relationship, DatabaseError>)
    ensures
        match result {
            Ok(relationship) => relationship_read(row@) == Ok::<RelationshipView, DatabaseErrorView>(
                relationship@,
            ),
            Err(error) => relationship_read(row@) == Err::<RelationshipView, DatabaseErrorView>(
                error@,
            ),
        },
{
    let kind = match read_name::<RelationshipKind>(row.kind.as_str()) {
        Ok(kind) => kind,
        Err(error) => {
            return Err(error);
        },
    };
    let evidence = match read_evidence(row.evidence_json.as_str()) {
        Ok(evidence) => evidence,
        Err(error) => {
            return Err(error);
        },
    };
    Ok(
        Relationship {
            kind,
            source_path: FilePath::from_bytes(row.source_path.as_slice()),
            target_path: FilePath::from_bytes(row.target_path.as_slice()),
            confidence: row.confidence,
            evidence,
        },
    )
}

/// The explanation that a row holds, or the first thing wrong with the row.
pub open spec fn explanation_read(row: ExplanationRowView) -> Result<
    ExplanationView,
    DatabaseErrorView,
> {
    match (
        name_read::<AiCategory>(row.category),
        name_read::<RiskLevel>(row.risk),
        name_read::<AiSuggestedAction>(row.suggested_action),
    ) {
        (Err(error), _, _) => Err(error),
        (_, Err(error), _) => Err(error),
        (_, _, Err(error)) => Err(error),
        (Ok(category), Ok(risk), Ok(suggested_action)) => Ok(
            ExplanationView {
                path: path::components(row.path),
                spelling: row.path,
                category,
                risk,
                confidence: row.confidence,
                reason: row.reason,
                suggested_action,
            },
        ),
    }
}

/// The explanation that a row holds.
pub fn read_explanation(row: &ExplanationRow) -> (result: Result<AiExplanation, DatabaseError>)
    ensures
        match result {
            Ok(explanation) => explanation_read(row@) == Ok::<ExplanationView, DatabaseErrorView>(
                explanation@,
            ),
            Err(error) => explanation_read(row@) == Err::<ExplanationView, DatabaseErrorView>(
                error@,
            ),
        },
{
    let category = match read_name::<AiCategory>(row.category.as_str()) {
        Ok(category) => category,
        Err(error) => {
            return Err(error);
        },
    };
    let risk = match read_name::<RiskLevel>(row.risk.as_str()) {
        Ok(risk) => risk,
        Err(error) => {
            return Err(error);
        },
    };
    let suggested_action = match read_name::<AiSuggestedAction>(row.suggested_action.as_str()) {
        Ok(action) => action,
        Err(error) => {
            return Err(error);
        },
    };
    Ok(
        AiExplanation {
            path: FilePath::from_bytes(row.path.as_slice()),
            category,
            risk,
            confidence: row.confidence,
            reason: row.reason.clone(),
            suggested_action,
        },
    )
}

/// A warning of an earlier analysis.
#[derive(Debug, PartialEq, Eq)]
pub struct StoredWarning {
    pub source: String,
    pub path: Option<FilePath>,
    pub kind: Option<String>,
    pub message: String,
}

#[verifier::ext_equal]
pub struct StoredWarningView {
    pub source: Seq<char>,
    pub path: Option<GivenView>,
    pub kind: Option<Seq<char>>,
    pub message: Seq<char>,
}

impl View for StoredWarning {
    type V = StoredWarningView;

    open spec fn view(&self) -> StoredWarningView {
        StoredWarningView {
            source: self.source@,
            path: path::optional_given(self.path),
            kind: model::optional(self.kind),
            message: self.message@,
        }
    }
}

/// The warning that a row holds.
pub open spec fn warning_read(row: WarningRowView) -> StoredWarningView {
    StoredWarningView {
        source: row.source,
        path: match row.path {
            Some(bytes) => Some(path::given_as(bytes)),
            None => None,
        },
        kind: row.kind,
        message: row.message,
    }
}

/// The warning that a row holds.
pub fn read_warning(row: &WarningRow) -> (result: StoredWarning)
    ensures
        result@ == warning_read(row@),
{
    StoredWarning {
        source: row.source.clone(),
        path: match &row.path {
            Some(bytes) => Some(FilePath::from_bytes(bytes.as_slice())),
            None => None,
        },
        kind: copy_optional_text(&row.kind),
        message: row.message.clone(),
    }
}

/// What history tells of one scan.
#[derive(Debug, PartialEq, Eq)]
pub struct ScanHistoryEntry {
    pub id: i64,
    pub root: FilePath,
    pub started_at_epoch_seconds: u64,
    pub completed_at_epoch_seconds: u64,
    pub total_size_bytes: u64,
    pub total_allocated_size_bytes: Option<u64>,
    pub file_count: u64,
    pub directory_count: u64,
    pub recommendation_count: u64,
    pub duplicate_group_count: u64,
    pub relationship_count: u64,
    pub warning_count: u64,
    pub duplicate_recovery_bytes: Option<u64>,
    pub recovered_space_bytes: u64,
    pub ai_status: String,
    pub ai_model: Option<String>,
    pub ai_candidate_count: u64,
    pub ai_explanation_count: u64,
}

#[verifier::ext_equal]
pub struct ScanHistoryEntryView {
    pub id: i64,
    pub root: Seq<PartView>,
    pub root_spelling: Seq<u8>,
    pub started_at_epoch_seconds: u64,
    pub completed_at_epoch_seconds: u64,
    pub total_size_bytes: u64,
    pub total_allocated_size_bytes: Option<u64>,
    pub file_count: u64,
    pub directory_count: u64,
    pub recommendation_count: u64,
    pub duplicate_group_count: u64,
    pub relationship_count: u64,
    pub warning_count: u64,
    pub duplicate_recovery_bytes: Option<u64>,
    pub recovered_space_bytes: u64,
    pub ai_status: Seq<char>,
    pub ai_model: Option<Seq<char>>,
    pub ai_candidate_count: u64,
    pub ai_explanation_count: u64,
}

impl View for ScanHistoryEntry {
    type V = ScanHistoryEntryView;

    open spec fn view(&self) -> ScanHistoryEntryView {
        ScanHistoryEntryView {
            id: self.id,
            root: self.root@,
            root_spelling: self.root.spelling(),
            started_at_epoch_seconds: self.started_at_epoch_seconds,
            completed_at_epoch_seconds: self.completed_at_epoch_seconds,
            total_size_bytes: self.total_size_bytes,
            total_allocated_size_bytes: self.total_allocated_size_bytes,
            file_count: self.file_count,
            directory_count: self.directory_count,
            recommendation_count: self.recommendation_count,
            duplicate_group_count: self.duplicate_group_count,
            relationship_count: self.relationship_count,
            warning_count: self.warning_count,
            duplicate_recovery_bytes: self.duplicate_recovery_bytes,
            recovered_space_bytes: self.recovered_space_bytes,
            ai_status: self.ai_status@,
            ai_model: model::optional(self.ai_model),
            ai_candidate_count: self.ai_candidate_count,
            ai_explanation_count: self.ai_explanation_count,
        }
    }
}

/// A row of history as it is read from storage.
#[derive(Debug)]
pub struct HistoryRow {
    pub id: i64,
    pub root_path: Vec<u8>,
    pub started_at: i64,
    pub completed_at: i64,
    pub total_size_bytes: i64,
    pub total_allocated_size_bytes: Option<i64>,
    pub file_count: i64,
    pub directory_count: i64,
    pub recommendation_count: i64,
    pub duplicate_group_count: i64,
    pub relationship_count: i64,
    pub warning_count: i64,
    pub duplicate_recovery_bytes: Option<i64>,
    pub recovered_space_bytes: i64,
    pub ai_status: String,
    pub ai_model: Option<String>,
    pub ai_candidate_count: i64,
    pub ai_explanation_count: i64,
}

#[verifier::ext_equal]
pub struct HistoryRowView {
    pub id: i64,
    pub root_path: Seq<u8>,
    pub started_at: i64,
    pub completed_at: i64,
    pub total_size_bytes: i64,
    pub total_allocated_size_bytes: Option<i64>,
    pub file_count: i64,
    pub directory_count: i64,
    pub recommendation_count: i64,
    pub duplicate_group_count: i64,
    pub relationship_count: i64,
    pub warning_count: i64,
    pub duplicate_recovery_bytes: Option<i64>,
    pub recovered_space_bytes: i64,
    pub ai_status: Seq<char>,
    pub ai_model: Option<Seq<char>>,
    pub ai_candidate_count: i64,
    pub ai_explanation_count: i64,
}

impl View for HistoryRow {
    type V = HistoryRowView;

    open spec fn view(&self) -> HistoryRowView {
        HistoryRowView {
            id: self.id,
            root_path: self.root_path@,
            started_at: self.started_at,
            completed_at: self.completed_at,
            total_size_bytes: self.total_size_bytes,
            total_allocated_size_bytes: self.total_allocated_size_bytes,
            file_count: self.file_count,
            directory_count: self.directory_count,
            recommendation_count: self.recommendation_count,
            duplicate_group_count: self.duplicate_group_count,
            relationship_count: self.relationship_count,
            warning_count: self.warning_count,
            duplicate_recovery_bytes: self.duplicate_recovery_bytes,
            recovered_space_bytes: self.recovered_space_bytes,
            ai_status: self.ai_status@,
            ai_model: model::optional(self.ai_model),
            ai_candidate_count: self.ai_candidate_count,
            ai_explanation_count: self.ai_explanation_count,
        }
    }
}

/// The numbers of a row of history, in the order they are looked at.
pub open spec fn history_numbers(row: HistoryRowView) -> Seq<StoredNumberView> {
    seq![
        StoredNumberView { value: Some(row.started_at), field: "started_at"@ },
        StoredNumberView { value: Some(row.completed_at), field: "completed_at"@ },
        StoredNumberView { value: Some(row.total_size_bytes), field: "total_size_bytes"@ },
        StoredNumberView { value: row.total_allocated_size_bytes, field: "total_allocated_size_bytes"@ },
        StoredNumberView { value: Some(row.file_count), field: "file_count"@ },
        StoredNumberView { value: Some(row.directory_count), field: "directory_count"@ },
        StoredNumberView { value: Some(row.recommendation_count), field: "recommendation_count"@ },
        StoredNumberView { value: Some(row.duplicate_group_count), field: "duplicate_group_count"@ },
        StoredNumberView { value: Some(row.relationship_count), field: "relationship_count"@ },
        StoredNumberView { value: Some(row.warning_count), field: "warning_count"@ },
        StoredNumberView { value: row.duplicate_recovery_bytes, field: "duplicate_recovery_bytes"@ },
        StoredNumberView { value: Some(row.recovered_space_bytes), field: "recovered_space_bytes"@ },
        StoredNumberView { value: Some(row.ai_candidate_count), field: "ai_candidate_count"@ },
        StoredNumberView { value: Some(row.ai_explanation_count), field: "ai_explanation_count"@ },
    ]
}

/// What a sound row of history tells.
pub open spec fn history_read(row: HistoryRowView) -> ScanHistoryEntryView {
    ScanHistoryEntryView {
        id: row.id,
        root: path::components(row.root_path),
        root_spelling: row.root_path,
        started_at_epoch_seconds: row.started_at as u64,
        completed_at_epoch_seconds: row.completed_at as u64,
        total_size_bytes: row.total_size_bytes as u64,
        total_allocated_size_bytes: read(row.total_allocated_size_bytes),
        file_count: row.file_count as u64,
        directory_count: row.directory_count as u64,
        recommendation_count: row.recommendation_count as u64,
        duplicate_group_count: row.duplicate_group_count as u64,
        relationship_count: row.relationship_count as u64,
        warning_count: row.warning_count as u64,
        duplicate_recovery_bytes: read(row.duplicate_recovery_bytes),
        recovered_space_bytes: row.recovered_space_bytes as u64,
        ai_candidate_count: row.ai_candidate_count as u64,
        ai_explanation_count: row.ai_explanation_count as u64,
        ai_status: row.ai_status,
        ai_model: row.ai_model,
    }
}

/// What a row of history tells.
pub fn read_history_row(row: &HistoryRow) -> (result: Result<ScanHistoryEntry, DatabaseError>)
    ensures
        match result {
            Ok(entry) => damage(history_numbers(row@)) is None && entry@ == history_read(row@),
            Err(error) => damage(history_numbers(row@)) == Some(error@),
        },
{
    let numbers = vec![
        StoredNumber { value: Some(row.started_at), field: "started_at" },
        StoredNumber { value: Some(row.completed_at), field: "completed_at" },
        StoredNumber { value: Some(row.total_size_bytes), field: "total_size_bytes" },
        StoredNumber { value: row.total_allocated_size_bytes, field: "total_allocated_size_bytes" },
        StoredNumber { value: Some(row.file_count), field: "file_count" },
        StoredNumber { value: Some(row.directory_count), field: "directory_count" },
        StoredNumber { value: Some(row.recommendation_count), field: "recommendation_count" },
        StoredNumber { value: Some(row.duplicate_group_count), field: "duplicate_group_count" },
        StoredNumber { value: Some(row.relationship_count), field: "relationship_count" },
        StoredNumber { value: Some(row.warning_count), field: "warning_count" },
        StoredNumber { value: row.duplicate_recovery_bytes, field: "duplicate_recovery_bytes" },
        StoredNumber { value: Some(row.recovered_space_bytes), field: "recovered_space_bytes" },
        StoredNumber { value: Some(row.ai_candidate_count), field: "ai_candidate_count" },
        StoredNumber { value: Some(row.ai_explanation_count), field: "ai_explanation_count" },
    ];
    assert(order::views(numbers@) =~= history_numbers(row@));
    match check_stored(&numbers) {
        Ok(_) => {},
        Err(error) => {
            return Err(error);
        },
    }
    assert(not_negative(numbers@[0].value));
    assert(not_negative(numbers@[1].value));
    assert(not_negative(numbers@[2].value));
    assert(not_negative(numbers@[3].value));
    assert(not_negative(numbers@[4].value));
    assert(not_negative(numbers@[5].value));
    assert(not_negative(numbers@[6].value));
    assert(not_negative(numbers@[7].value));
    assert(not_negative(numbers@[8].value));
    assert(not_negative(numbers@[9].value));
    assert(not_negative(numbers@[10].value));
    assert(not_negative(numbers@[11].value));
    assert(not_negative(numbers@[12].value));
    assert(not_negative(numbers@[13].value));
    Ok(
        ScanHistoryEntry {
            id: row.id,
            root: FilePath::from_bytes(row.root_path.as_slice()),
            started_at_epoch_seconds: row.started_at as u64,
            completed_at_epoch_seconds: row.completed_at as u64,
            total_size_bytes: row.total_size_bytes as u64,
            total_allocated_size_bytes: read_number(row.total_allocated_size_bytes),
            file_count: row.file_count as u64,
            directory_count: row.directory_count as u64,
            recommendation_count: row.recommendation_count as u64,
            duplicate_group_count: row.duplicate_group_count as u64,
            relationship_count: row.relationship_count as u64,
            warning_count: row.warning_count as u64,
            duplicate_recovery_bytes: read_number(row.duplicate_recovery_bytes),
            recovered_space_bytes: row.recovered_space_bytes as u64,
            ai_candidate_count: row.ai_candidate_count as u64,
            ai_explanation_count: row.ai_explanation_count as u64,
            ai_status: row.ai_status.clone(),
            ai_model: copy_optional_text(&row.ai_model),
        },
    )
}

/// The row of history that a stored scan shows as, before anything was
/// recovered.
pub open spec fn history_row(id: i64, row: ScanRowView, explanations: i64) -> HistoryRowView {
    HistoryRowView {
        id,
        root_path: row.root_path,
        started_at: row.started_at,
        completed_at: row.completed_at,
        total_size_bytes: row.total_size_bytes,
        total_allocated_size_bytes: row.total_allocated_size_bytes,
        file_count: row.file_count,
        directory_count: row.directory_count,
        recommendation_count: row.recommendation_count,
        duplicate_group_count: row.duplicate_group_count,
        relationship_count: row.relationship_count,
        warning_count: (row.scan_warning_count + row.duplicate_warning_count) as i64,
        duplicate_recovery_bytes: row.duplicate_recovery_bytes,
        recovered_space_bytes: 0,
        ai_status: row.ai_status,
        ai_model: row.ai_model,
        ai_candidate_count: row.ai_candidate_count,
        ai_explanation_count: explanations,
    }
}

/// An analysis as it was read back from history.
#[derive(Debug, PartialEq, Eq)]
pub struct StoredAnalysis {
    pub summary: ScanHistoryEntry,
    pub findings: Vec<Finding>,
    pub duplicate_groups: Vec<DuplicateGroup>,
    pub relationships: Vec<Relationship>,
    pub ai_explanations: Vec<AiExplanation>,
    pub warnings: Vec<StoredWarning>,
}

#[verifier::ext_equal]
pub struct StoredAnalysisView {
    pub summary: ScanHistoryEntryView,
    pub findings: Seq<FindingView>,
    pub duplicate_groups: Seq<GroupView>,
    pub relationships: Seq<RelationshipView>,
    pub ai_explanations: Seq<ExplanationView>,
    pub warnings: Seq<StoredWarningView>,
}

impl View for StoredAnalysis {
    type V = StoredAnalysisView;

    open spec fn view(&self) -> StoredAnalysisView {
        StoredAnalysisView {
            summary: self.summary@,
            findings: order::views(self.findings@),
            duplicate_groups: order::views(self.duplicate_groups@),
            relationships: order::views(self.relationships@),
            ai_explanations: order::views(self.ai_explanations@),
            warnings: order::views(self.warnings@),
        }
    }
}

pub open spec fn action_rank(action: SuggestedAction) -> int {
    match action {
        SuggestedAction::ReviewForDeletion => 0,
        SuggestedAction::ReviewForArchive => 1,
    }
}

fn stored_action_rank(action: SuggestedAction) -> (result: u8)
    ensures
        result == action_rank(action),
{
    match action {
        SuggestedAction::ReviewForDeletion => 0,
        SuggestedAction::ReviewForArchive => 1,
    }
}

pub open spec fn risk_rank(risk: RiskLevel) -> int {
    match risk {
        RiskLevel::Low => 0,
        RiskLevel::Medium => 1,
        RiskLevel::High => 2,
    }
}

fn stored_risk_rank(risk: RiskLevel) -> (result: u8)
    ensures
        result == risk_rank(risk),
{
    match risk {
        RiskLevel::Low => 0,
        RiskLevel::Medium => 1,
        RiskLevel::High => 2,
    }
}

/// Findings as they are reviewed: the plainest action first, then the lowest
/// risk, the surest, the most to recover, and the first path.
pub open spec fn reviewed_before(left: FindingView, right: FindingView) -> bool {
    if left.suggested_action != right.suggested_action {
        action_rank(left.suggested_action) <= action_rank(right.suggested_action)
    } else if left.risk != right.risk {
        risk_rank(left.risk) <= risk_rank(right.risk)
    } else if left.confidence != right.confidence {
        single::total_rank(left.confidence.bits) > single::total_rank(right.confidence.bits)
    } else if left.potential_recovery_bytes != right.potential_recovery_bytes {
        left.potential_recovery_bytes > right.potential_recovery_bytes
    } else {
        path::at_most(left.path, right.path)
    }
}

pub open spec fn review_order() -> spec_fn(FindingView, FindingView) -> bool {
    |left: FindingView, right: FindingView| reviewed_before(left, right)
}

pub(crate) proof fn lemma_review_order()
    ensures
        order::is_ranking(review_order()),
{
    let le = review_order();
    assert forall|a: FindingView, b: FindingView| #[trigger] le(a, b) || le(b, a) by {
        path::law_paths_are_totally_ordered(a.path, b.path);
    }
    assert forall|a: FindingView, b: FindingView, c: FindingView| #[trigger] le(a, b)
        && #[trigger] le(b, c) implies le(a, c) by {
        if path::at_most(a.path, b.path) && path::at_most(b.path, c.path) {
            path::lemma_at_most_transitive(a.path, b.path, c.path);
        }
    }
}

struct ReviewOrder;

impl Ranking<Finding> for ReviewOrder {
    closed spec fn at_most(&self, left: FindingView, right: FindingView) -> bool {
        reviewed_before(left, right)
    }

    proof fn ranks(&self) {
        lemma_review_order();
        assert(review_order() =~= |left: FindingView, right: FindingView|
            self.at_most(left, right));
    }

    fn not_after(&self, left: &Finding, right: &Finding) -> (result: bool) {
        if left.suggested_action != right.suggested_action {
            stored_action_rank(left.suggested_action) <= stored_action_rank(right.suggested_action)
        } else if left.risk != right.risk {
            stored_risk_rank(left.risk) <= stored_risk_rank(right.risk)
        } else if left.confidence != right.confidence {
            single::ranks_behind(left.confidence.bits, right.confidence.bits)
        } else if left.potential_recovery_bytes != right.potential_recovery_bytes {
            left.potential_recovery_bytes > right.potential_recovery_bytes
        } else {
            left.path.not_after(&right.path)
        }
    }
}

/// Findings in the order of review.
pub fn order_findings(findings: Vec<Finding>) -> (result: Vec<Finding>)
    ensures
        order::views(result@) == order::sorted(order::views(findings@), review_order()),
{
    assert(order::relation::<Finding, ReviewOrder>(ReviewOrder) =~= review_order());
    order::sort_by_ranking(findings, &ReviewOrder)
}

/// How many rows of history are asked for: none where the limit is none.
pub fn history_limit(limit: usize) -> (result: Option<i64>)
    ensures
        result is None <==> limit == 0,
        limit > 0 ==> result == Some(
            if limit > i64::MAX {
                i64::MAX
            } else {
                limit as i64
            },
        ),
{
    if limit == 0 {
        None
    } else if limit as u64 > i64::MAX as u64 {
        Some(i64::MAX)
    } else {
        Some(limit as i64)
    }
}

/// A stored entry of a group reads back as it was.
pub proof fn law_stored_entries_read_back(entry: EntryView)
    requires
        path::spells(entry.spelling, entry.path),
        refusal(entry_numbers(entry)) is None,
    ensures
        damage(stored_entry_numbers(entry_row(entry))) is None,
        entry_read(entry_row(entry)) == entry,
{
    let numbers = entry_numbers(entry);
    lemma_all_fit(numbers, 0);
    assert(fits(numbers[0].value) && fits(numbers[1].value) && fits(numbers[2].value) && fits(
        numbers[3].value,
    ));
    reveal_with_fuel(first_negative, 5);
    assert(entry_read(entry_row(entry)) =~= entry);
}

/// A stored group of duplicates reads back as it was.
pub proof fn law_stored_groups_read_back(group: GroupView)
    requires
        refusal(group_numbers(group)) is None,
    ensures
        damage(stored_group_numbers(group_row(group))) is None,
        group_read(group_row(group), group.entries) == group,
{
    let numbers = group_numbers(group);
    lemma_all_fit(numbers, 0);
    assert(fits(numbers[0].value) && fits(numbers[1].value) && fits(numbers[2].value) && fits(
        numbers[3].value,
    ) && fits(numbers[4].value));
    reveal_with_fuel(first_negative, 6);
}

/// A stored explanation reads back as it was.
pub proof fn law_stored_explanations_read_back(explanation: ExplanationView)
    requires
        path::spells(explanation.spelling, explanation.path),
    ensures
        explanation_read(explanation_row(explanation)) == Ok::<ExplanationView, DatabaseErrorView>(
            explanation,
        ),
{
    explanation.category.law_names_read_back();
    explanation.risk.law_names_read_back();
    explanation.suggested_action.law_names_read_back();
}

/// Stored warnings read back with their source and, where they have one, the
/// path and the name of their kind.
pub proof fn law_stored_warnings_read_back(
    warning: ScanWarningView,
    duplicate: DuplicateWarningView,
)
    requires
        warning.path matches Some(known) ==> path::spells(known.spelling, known.path),
        path::spells(duplicate.spelling, duplicate.path),
    ensures
        warning_read(scan_warning_row(warning)) == (StoredWarningView {
            source: "scan"@,
            path: warning.path,
            kind: None,
            message: warning.message,
        }),
        warning_read(duplicate_warning_row(duplicate)) == (StoredWarningView {
            source: "duplicate"@,
            path: Some(GivenView { path: duplicate.path, spelling: duplicate.spelling }),
            kind: Some(duplicate.kind.spec_name()),
            message: duplicate.message,
        }),
{
}

/// What history tells of an analysis as a whole.
pub open spec fn history_entry(id: i64, analysis: AnalysisView) -> ScanHistoryEntryView {
    ScanHistoryEntryView {
        id,
        root: analysis.scan.root,
        root_spelling: analysis.scan.root_spelling,
        started_at_epoch_seconds: analysis.scan.started_at_epoch_seconds,
        completed_at_epoch_seconds: analysis.scan.completed_at_epoch_seconds,
        total_size_bytes: analysis.scan.total_size_bytes,
        total_allocated_size_bytes: analysis.scan.total_allocated_size_bytes,
        file_count: analysis.scan.file_count,
        directory_count: analysis.scan.directory_count,
        recommendation_count: analysis.findings.len() as u64,
        duplicate_group_count: analysis.duplicates.groups.len() as u64,
        relationship_count: analysis.relationships.relationships.len() as u64,
        warning_count: (analysis.scan.warnings.len()
            + analysis.duplicates.warnings.len()) as u64,
        duplicate_recovery_bytes: analysis.duplicates.potential_recovery_allocated_bytes,
        recovered_space_bytes: 0,
        ai_status: status_parts(analysis.ai.status).0,
        ai_model: status_parts(analysis.ai.status).1,
        ai_candidate_count: analysis.ai.candidates_considered,
        ai_explanation_count: analysis.ai.explanations.len() as u64,
    }
}

/// History tells of a stored analysis what it was.
pub proof fn law_history_tells_what_was_stored(id: i64, analysis: AnalysisView)
    requires
        path::spells(analysis.scan.root_spelling, analysis.scan.root),
        refusal(scan_numbers(analysis)) is None,
        analysis.scan.warnings.len() + analysis.duplicates.warnings.len() <= i64::MAX,
        analysis.findings.len() <= u64::MAX,
        analysis.duplicates.groups.len() <= u64::MAX,
        analysis.relationships.relationships.len() <= u64::MAX,
        analysis.ai.explanations.len() <= i64::MAX,
    ensures
        ({
            let row = history_row(
                id,
                scan_row(analysis),
                analysis.ai.explanations.len() as i64,
            );
            &&& damage(history_numbers(row)) is None
            &&& history_read(row) == history_entry(id, analysis)
        }),
{
    let numbers = scan_numbers(analysis);
    lemma_all_fit(numbers, 0);
    assert(fits(numbers[0].value) && fits(numbers[1].value) && fits(numbers[2].value) && fits(
        numbers[3].value,
    ) && fits(numbers[4].value) && fits(numbers[5].value) && fits(numbers[6].value) && fits(
        numbers[7].value,
    ) && fits(numbers[8].value) && fits(numbers[9].value) && fits(numbers[10].value) && fits(
        numbers[11].value,
    ) && fits(numbers[12].value) && fits(numbers[13].value));
    reveal_with_fuel(first_negative, 15);
}

/// Findings are reviewed by action first, then by risk.
pub proof fn law_plain_findings_are_reviewed_first(findings: Seq<FindingView>, first: int, second: int)
    requires
        0 <= first < second < findings.len(),
    ensures
        ({
            let all = order::sorted(findings, review_order());
            &&& all.len() == findings.len()
            &&& reviewed_before(all[first], all[second])
            &&& action_rank(all[first].suggested_action) <= action_rank(
                all[second].suggested_action,
            )
            &&& all[first].suggested_action == all[second].suggested_action ==> risk_rank(
                all[first].risk,
            ) <= risk_rank(all[second].risk)
        }),
{
    lemma_review_order();
    order::law_sorted_is_an_ordered_permutation(findings, review_order());
    order::lemma_sorted_len(findings, review_order());
    let all = order::sorted(findings, review_order());
    let le = review_order();
    assert(le(all[first], all[second]));
}

} // verus!
