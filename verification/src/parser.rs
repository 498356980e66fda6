//! The parser: the text of one source in, its records out.
//!
//! A source is a sequence of lines, separated by line feeds. A line that is
//! empty or begins with `#` is passed over. Every other line is one record:
//! cells separated by single tabs.
//!
//! ```text
//! declaration = namespace TAB name TAB state TAB permission TAB tracking TAB description
//! override    = namespace TAB name TAB state
//! state       = "ENABLED" | "DISABLED"
//! permission  = "READ_ONLY" | "READ_WRITE"
//! ```
//!
//! `namespace` and `name` are identifiers. `tracking` and `description` are
//! any bytes but tab and line feed, and may be empty.
//!
//! Parsing a source is all or nothing: the first line at fault fails the whole
//! source. A line is at fault that has too few cells (`MissingField`), too
//! many, or a namespace or name that is no identifier (`Malformed`), a state
//! or permission that is none of the words above (`InvalidValue`), or the key
//! of an earlier record of the same source (`DuplicateKey`).

use crate::model::{
    Declaration, DeclarationView, FlagKey, FlagKeyView, FlagState, Override, OverrideView,
    Permission,
};
use crate::text::{copy_bytes, split, split_bytes, views, Rel};
use vstd::prelude::*;

verus! {

/// The byte that separates lines.
pub const LINE_FEED: u8 = 0x0a;

/// The byte that separates the cells of a record.
pub const TAB: u8 = 0x09;

/// The byte that begins a comment line.
pub const HASH: u8 = 0x23;

/// What a source holds.
#[derive(Clone, Copy, Debug, PartialEq, Eq, Structural)]
pub enum SourceKind {
    Declarations,
    Overrides,
}

/// What is wrong with a line.
#[derive(Clone, Copy, Debug, PartialEq, Eq, Structural)]
pub enum Violation {
    /// The record has fewer cells than its kind requires.
    MissingField,
    /// A state or permission is not one of the words of the format.
    InvalidValue,
    /// An earlier record of the same source has the same key.
    DuplicateKey,
    /// The record has more cells than its kind allows, or its namespace or
    /// name is not an identifier.
    Malformed,
}

/// A parse error, as mathematical data.
pub struct ParseErrorView {
    pub source: Seq<u8>,
    pub line: int,
    pub violation: Violation,
}

/// Why a source was refused: which source, which line (the first line is
/// line 1), and what is wrong with it.
#[derive(Debug, PartialEq, Eq)]
pub struct ParseError {
    pub source: Vec<u8>,
    pub line: usize,
    pub violation: Violation,
}

impl View for ParseError {
    type V = ParseErrorView;

    open spec fn view(&self) -> ParseErrorView {
        ParseErrorView { source: self.source@, line: self.line as int, violation: self.violation }
    }
}

impl Clone for ParseError {
    fn clone(&self) -> (e: ParseError)
        ensures
            e@ == self@,
    {
        ParseError {
            source: copy_bytes(self.source.as_slice()),
            line: self.line,
            violation: self.violation,
        }
    }
}

/// A record, as mathematical data.
pub enum RecordView {
    Declaration(DeclarationView),
    Override(OverrideView),
}

impl RecordView {
    /// The key of the flag that the record is about.
    pub open spec fn key(self) -> FlagKeyView {
        match self {
            RecordView::Declaration(d) => d.key,
            RecordView::Override(o) => o.key,
        }
    }

    /// Whether the record is of the kind that a source of kind `kind` holds.
    pub open spec fn of_kind(self, kind: SourceKind) -> bool {
        match kind {
            SourceKind::Declarations => self is Declaration,
            SourceKind::Overrides => self is Override,
        }
    }
}

/// One record of a source.
#[derive(Debug, PartialEq, Eq)]
pub enum Record {
    Declaration(Declaration),
    Override(Override),
}

impl View for Record {
    type V = RecordView;

    open spec fn view(&self) -> RecordView {
        match *self {
            Record::Declaration(d) => RecordView::Declaration(d@),
            Record::Override(o) => RecordView::Override(o@),
        }
    }
}

impl Clone for Record {
    fn clone(&self) -> (r: Record)
        ensures
            r@ == self@,
    {
        match self {
            Record::Declaration(d) => Record::Declaration(d.clone()),
            Record::Override(o) => Record::Override(o.clone()),
        }
    }
}

impl Record {
    /// The key of the flag that the record is about.
    pub fn key(&self) -> (key: &FlagKey)
        ensures
            key@ == self@.key(),
    {
        match self {
            Record::Declaration(d) => &d.key,
            Record::Override(o) => &o.key,
        }
    }
}

/// The views of a sequence of records.
pub open spec fn record_views(s: Seq<Record>) -> Seq<RecordView> {
    s.map_values(|r: Record| r@)
}

/// The word `ENABLED`.
pub open spec fn enabled_word() -> Seq<u8> {
    seq![0x45u8, 0x4e, 0x41, 0x42, 0x4c, 0x45, 0x44]
}

/// The word `DISABLED`.
pub open spec fn disabled_word() -> Seq<u8> {
    seq![0x44u8, 0x49, 0x53, 0x41, 0x42, 0x4c, 0x45, 0x44]
}

/// The word `READ_ONLY`.
pub open spec fn read_only_word() -> Seq<u8> {
    seq![0x52u8, 0x45, 0x41, 0x44, 0x5f, 0x4f, 0x4e, 0x4c, 0x59]
}

/// The word `READ_WRITE`.
pub open spec fn read_write_word() -> Seq<u8> {
    seq![0x52u8, 0x45, 0x41, 0x44, 0x5f, 0x57, 0x52, 0x49, 0x54, 0x45]
}

/// The state that a cell names, if it names one.
pub open spec fn state_word(cell: Seq<u8>) -> Option<FlagState> {
    if cell == enabled_word() {
        Some(FlagState::Enabled)
    } else if cell == disabled_word() {
        Some(FlagState::Disabled)
    } else {
        None
    }
}

/// The permission that a cell names, if it names one.
pub open spec fn permission_word(cell: Seq<u8>) -> Option<Permission> {
    if cell == read_only_word() {
        Some(Permission::ReadOnly)
    } else if cell == read_write_word() {
        Some(Permission::ReadWrite)
    } else {
        None
    }
}

/// Whether a line holds no record: it is empty or a comment.
pub open spec fn skipped(line: Seq<u8>) -> bool {
    line.len() == 0 || line[0] == HASH
}

/// The number of cells in a record of the given kind.
pub open spec fn cells_of(kind: SourceKind) -> int {
    match kind {
        SourceKind::Declarations => 6,
        SourceKind::Overrides => 3,
    }
}

/// The record that a line holds, or what is wrong with the line taken by
/// itself. The checks come in this order: the number of cells, the two
/// identifiers, the state, the permission.
pub open spec fn record_of(kind: SourceKind, line: Seq<u8>, source: Seq<u8>) -> Result<
    RecordView,
    Violation,
> {
    let cells = split(line, TAB);
    let key = FlagKeyView { namespace: cells[0], name: cells[1] };
    if cells.len() < cells_of(kind) {
        Err(Violation::MissingField)
    } else if cells.len() > cells_of(kind) {
        Err(Violation::Malformed)
    } else if !key.valid() {
        Err(Violation::Malformed)
    } else if state_word(cells[2]) is None {
        Err(Violation::InvalidValue)
    } else {
        match kind {
            SourceKind::Overrides => Ok(
                RecordView::Override(
                    OverrideView { key, state: state_word(cells[2])->0, source },
                ),
            ),
            SourceKind::Declarations => if permission_word(cells[3]) is None {
                Err(Violation::InvalidValue)
            } else {
                Ok(
                    RecordView::Declaration(
                        DeclarationView {
                            key,
                            description: cells[5],
                            tracking: cells[4],
                            default_state: state_word(cells[2])->0,
                            permission: permission_word(cells[3])->0,
                            source,
                        },
                    ),
                )
            },
        }
    }
}

/// Whether one of the records has this key.
pub open spec fn has_key(records: Seq<RecordView>, key: FlagKeyView) -> bool {
    exists|q: int| 0 <= q < records.len() && (#[trigger] records[q]).key() == key
}

/// What the first `n` lines of a source give: their records in the order of
/// the lines, or the error of the first line at fault.
pub open spec fn scan(kind: SourceKind, lines: Seq<Seq<u8>>, source: Seq<u8>, n: int) -> Result<
    Seq<RecordView>,
    ParseErrorView,
>
    decreases n,
{
    if n <= 0 {
        Ok(Seq::empty())
    } else {
        match scan(kind, lines, source, n - 1) {
            Err(e) => Err(e),
            Ok(records) => {
                let line = lines[n - 1];
                if skipped(line) {
                    Ok(records)
                } else {
                    match record_of(kind, line, source) {
                        Err(violation) => Err(ParseErrorView { source, line: n, violation }),
                        Ok(record) => if has_key(records, record.key()) {
                            Err(
                                ParseErrorView {
                                    source,
                                    line: n,
                                    violation: Violation::DuplicateKey,
                                },
                            )
                        } else {
                            Ok(records.push(record))
                        },
                    }
                }
            },
        }
    }
}

/// What parsing a source gives.
pub open spec fn parse_result(kind: SourceKind, source: Seq<u8>, bytes: Seq<u8>) -> Result<
    Seq<RecordView>,
    ParseErrorView,
> {
    let lines = split(bytes, LINE_FEED);
    scan(kind, lines, source, lines.len() as int)
}

/// The view of what a parse returned.
pub open spec fn parse_view(r: Result<Vec<Record>, ParseError>) -> Result<
    Seq<RecordView>,
    ParseErrorView,
> {
    match r {
        Ok(records) => Ok(record_views(records@)),
        Err(e) => Err(e@),
    }
}

/// Once a line is at fault, the lines after it change nothing.
pub proof fn lemma_scan_stops(
    kind: SourceKind,
    lines: Seq<Seq<u8>>,
    source: Seq<u8>,
    m: int,
    n: int,
)
    requires
        m <= n,
        scan(kind, lines, source, m) is Err,
    ensures
        scan(kind, lines, source, n) == scan(kind, lines, source, m),
    decreases n - m,
{
    if m < n {
        lemma_scan_stops(kind, lines, source, m, n - 1);
    }
}

/// The records of a source that parses: each is of the source's kind, with a
/// valid key and the source's label, and no two have the same key.
pub proof fn lemma_scan_records(kind: SourceKind, lines: Seq<Seq<u8>>, source: Seq<u8>, n: int)
    requires
        scan(kind, lines, source, n) is Ok,
    ensures
        ({
            let records = scan(kind, lines, source, n)->Ok_0;
            &&& forall|q: int|
                0 <= q < records.len() ==> (#[trigger] records[q]).of_kind(kind)
                    && records[q].key().valid()
            &&& forall|p: int, q: int|
                0 <= p < q < records.len() ==> (#[trigger] records[p]).key() != (
                #[trigger] records[q]).key()
        }),
    decreases n,
{
    if n > 0 {
        lemma_scan_records(kind, lines, source, n - 1);
        let before = scan(kind, lines, source, n - 1)->Ok_0;
        let records = scan(kind, lines, source, n)->Ok_0;
        if records != before {
            let record = record_of(kind, lines[n - 1], source)->Ok_0;
            assert(records == before.push(record));
            assert forall|p: int, q: int| 0 <= p < q < records.len() implies (
            #[trigger] records[p]).key() != (#[trigger] records[q]).key() by {
                if q == before.len() {
                    assert(before[p].key() != record.key());
                } else {
                    assert(before[p].key() != before[q].key());
                }
            }
        }
    }
}

/// The error of a source that does not parse names the first line at fault:
/// the lines before it parse, and the line itself is wrong by itself or
/// repeats the key of a record before it.
pub proof fn lemma_scan_error(kind: SourceKind, lines: Seq<Seq<u8>>, source: Seq<u8>, n: int)
    requires
        scan(kind, lines, source, n) is Err,
    ensures
        ({
            let e = scan(kind, lines, source, n)->Err_0;
            let line = lines[e.line - 1];
            &&& e.source == source
            &&& 1 <= e.line <= n
            &&& scan(kind, lines, source, e.line - 1) is Ok
            &&& !skipped(line)
            &&& match record_of(kind, line, source) {
                Err(violation) => e.violation == violation,
                Ok(record) => e.violation == Violation::DuplicateKey && has_key(
                    scan(kind, lines, source, e.line - 1)->Ok_0,
                    record.key(),
                ),
            }
        }),
    decreases n,
{
    if scan(kind, lines, source, n - 1) is Err {
        lemma_scan_error(kind, lines, source, n - 1);
    }
}

fn is_enabled_word(cell: &[u8]) -> (r: bool)
    ensures
        r == (cell@ == enabled_word()),
{
    let r = cell.len() == 7 && cell[0] == 0x45 && cell[1] == 0x4e && cell[2] == 0x41 && cell[3]
        == 0x42 && cell[4] == 0x4c && cell[5] == 0x45 && cell[6] == 0x44;
    proof {
        if r {
            assert(cell@ =~= enabled_word());
        }
    }
    r
}

fn is_disabled_word(cell: &[u8]) -> (r: bool)
    ensures
        r == (cell@ == disabled_word()),
{
    let r = cell.len() == 8 && cell[0] == 0x44 && cell[1] == 0x49 && cell[2] == 0x53 && cell[3]
        == 0x41 && cell[4] == 0x42 && cell[5] == 0x4c && cell[6] == 0x45 && cell[7] == 0x44;
    proof {
        if r {
            assert(cell@ =~= disabled_word());
        }
    }
    r
}

fn is_read_only_word(cell: &[u8]) -> (r: bool)
    ensures
        r == (cell@ == read_only_word()),
{
    let r = cell.len() == 9 && cell[0] == 0x52 && cell[1] == 0x45 && cell[2] == 0x41 && cell[3]
        == 0x44 && cell[4] == 0x5f && cell[5] == 0x4f && cell[6] == 0x4e && cell[7] == 0x4c
        && cell[8] == 0x59;
    proof {
        if r {
            assert(cell@ =~= read_only_word());
        }
    }
    r
}

fn is_read_write_word(cell: &[u8]) -> (r: bool)
    ensures
        r == (cell@ == read_write_word()),
{
    let r = cell.len() == 10 && cell[0] == 0x52 && cell[1] == 0x45 && cell[2] == 0x41 && cell[3]
        == 0x44 && cell[4] == 0x5f && cell[5] == 0x57 && cell[6] == 0x52 && cell[7] == 0x49
        && cell[8] == 0x54 && cell[9] == 0x45;
    proof {
        if r {
            assert(cell@ =~= read_write_word());
        }
    }
    r
}

/// Reads a state from its word.
pub fn parse_state(cell: &[u8]) -> (state: Option<FlagState>)
    ensures
        state == state_word(cell@),
{
    if is_enabled_word(cell) {
        Some(FlagState::Enabled)
    } else if is_disabled_word(cell) {
        Some(FlagState::Disabled)
    } else {
        None
    }
}

/// Reads a permission from its word.
pub fn parse_permission(cell: &[u8]) -> (permission: Option<Permission>)
    ensures
        permission == permission_word(cell@),
{
    if is_read_only_word(cell) {
        Some(Permission::ReadOnly)
    } else if is_read_write_word(cell) {
        Some(Permission::ReadWrite)
    } else {
        None
    }
}

/// Reads the record of one line that is neither empty nor a comment.
pub fn parse_line(kind: SourceKind, line: &[u8], source: &[u8]) -> (r: Result<Record, Violation>)
    ensures
        match r {
            Ok(record) => record_of(kind, line@, source@) == Ok::<RecordView, Violation>(record@),
            Err(violation) => record_of(kind, line@, source@) == Err::<RecordView, Violation>(
                violation,
            ),
        },
{
    let cells = split_bytes(line, TAB);
    let ghost texts = views(cells@);
    let want: usize = match kind {
        SourceKind::Declarations => 6,
        SourceKind::Overrides => 3,
    };
    if cells.len() < want {
        return Err(Violation::MissingField);
    }
    if cells.len() > want {
        return Err(Violation::Malformed);
    }
    proof {
        assert(texts[0] == cells@[0]@ && texts[1] == cells@[1]@ && texts[2] == cells@[2]@);
    }
    let key = match FlagKey::new(
        copy_bytes(cells[0].as_slice()),
        copy_bytes(cells[1].as_slice()),
    ) {
        Some(key) => key,
        None => {
            return Err(Violation::Malformed);
        },
    };
    let state = match parse_state(cells[2].as_slice()) {
        Some(state) => state,
        None => {
            return Err(Violation::InvalidValue);
        },
    };
    match kind {
        SourceKind::Overrides => Ok(
            Record::Override(Override { key, state, source: copy_bytes(source) }),
        ),
        SourceKind::Declarations => {
            proof {
                assert(texts[3] == cells@[3]@ && texts[4] == cells@[4]@ && texts[5]
                    == cells@[5]@);
            }
            let permission = match parse_permission(cells[3].as_slice()) {
                Some(permission) => permission,
                None => {
                    return Err(Violation::InvalidValue);
                },
            };
            Ok(
                Record::Declaration(
                    Declaration {
                        key,
                        description: copy_bytes(cells[5].as_slice()),
                        tracking: copy_bytes(cells[4].as_slice()),
                        default_state: state,
                        permission,
                        source: copy_bytes(source),
                    },
                ),
            )
        },
    }
}

/// Whether one of the records has this key.
pub fn holds_key(records: &Vec<Record>, key: &FlagKey) -> (r: bool)
    ensures
        r == has_key(record_views(records@), key@),
{
    let ghost all = record_views(records@);
    let mut q: usize = 0;
    while q < records.len()
        invariant
            q <= records.len(),
            all == record_views(records@),
            forall|m: int| 0 <= m < q ==> (#[trigger] all[m]).key() != key@,
        decreases records.len() - q,
    {
        if records[q].key().compare(key) == Rel::Equal {
            proof {
                assert(all[q as int].key() == key@);
            }
            return true;
        }
        q += 1;
    }
    false
}

/// Parses one source of the given kind. `source` is the label that its
/// records, and the error if there is one, carry.
pub fn parse(kind: SourceKind, source: &[u8], bytes: &[u8]) -> (r: Result<Vec<Record>, ParseError>)
    ensures
        parse_view(r) == parse_result(kind, source@, bytes@),
{
    let lines = split_bytes(bytes, LINE_FEED);
    let ghost texts = views(lines@);
    let mut records: Vec<Record> = Vec::new();
    let mut n: usize = 0;
    proof {
        assert(record_views(records@) =~= Seq::<RecordView>::empty());
    }
    while n < lines.len()
        invariant
            n <= lines.len(),
            texts == views(lines@),
            texts == split(bytes@, LINE_FEED),
            scan(kind, texts, source@, n as int) == Ok::<Seq<RecordView>, ParseErrorView>(
                record_views(records@),
            ),
        decreases lines.len() - n,
    {
        let line = lines[n].as_slice();
        let ghost before = record_views(records@);
        proof {
            assert(texts[n as int] == line@);
        }
        if !(line.len() == 0 || line[0] == HASH) {
            match parse_line(kind, line, source) {
                Err(violation) => {
                    proof {
                        lemma_scan_stops(kind, texts, source@, n + 1, lines.len() as int);
                    }
                    return Err(ParseError { source: copy_bytes(source), line: n + 1, violation });
                },
                Ok(record) => {
                    if holds_key(&records, record.key()) {
                        proof {
                            lemma_scan_stops(kind, texts, source@, n + 1, lines.len() as int);
                        }
                        return Err(
                            ParseError {
                                source: copy_bytes(source),
                                line: n + 1,
                                violation: Violation::DuplicateKey,
                            },
                        );
                    }
                    proof {
                        assert(record_views(records@.push(record)) =~= before.push(record@));
                    }
                    records.push(record);
                },
            }
        }
        n += 1;
    }
    Ok(records)
}

} // verus!
