//! The two operations of the tool: building a cache and showing one.
//!
//! # Building
//!
//! The declaration sources are parsed in their order, then the override
//! sources in theirs. The first source that does not parse fails the build
//! with its parse error. Where all parse, their records are merged, the
//! declarations of all declaration sources in the order of the sources, and
//! likewise the overrides, so that an override of a later source wins over
//! one of an earlier source.
//!
//! # Showing
//!
//! A cache is shown as text, one line for each flag in the order of the
//! cache. The short form gives the key and the state of a flag, the long form
//! everything that the cache holds of it.

use crate::cache::Cache;
use crate::merge::{lemma_merge_of_same_items, merge, merge_outcome, MergeError, MergeErrorView};
use crate::model::{
    declaration_views, flag_views, override_views, CacheView, Declaration, DeclarationView,
    FlagState, Override, OverrideView, Permission, ResolvedBy, ResolvedFlag, ResolvedFlagView,
};
use crate::parser::{
    disabled_word, enabled_word, lemma_scan_records, parse, parse_result, read_only_word,
    read_write_word, record_views, ParseError, ParseErrorView, Record, RecordView, SourceKind,
    LINE_FEED, TAB,
};
use crate::text::{append_bytes, copy_bytes, split};
use crate::wire::encode;
use vstd::prelude::*;

verus! {

/// A source, as mathematical data.
pub struct InputView {
    pub source: Seq<u8>,
    pub bytes: Seq<u8>,
}

/// A source that has been read: its label and what it holds.
#[derive(Debug, PartialEq, Eq)]
pub struct Input {
    pub source: Vec<u8>,
    pub bytes: Vec<u8>,
}

impl View for Input {
    type V = InputView;

    open spec fn view(&self) -> InputView {
        InputView { source: self.source@, bytes: self.bytes@ }
    }
}

impl Clone for Input {
    fn clone(&self) -> (i: Input)
        ensures
            i@ == self@,
    {
        Input {
            source: copy_bytes(self.source.as_slice()),
            bytes: copy_bytes(self.bytes.as_slice()),
        }
    }
}

/// The views of a sequence of sources.
pub open spec fn input_views(s: Seq<Input>) -> Seq<InputView> {
    s.map_values(|i: Input| i@)
}

/// Why a build failed, as mathematical data.
pub enum BuildErrorView {
    Parse(ParseErrorView),
    Merge(MergeErrorView),
}

/// Why a build failed.
#[derive(Debug, PartialEq, Eq)]
pub enum BuildError {
    /// A source did not parse.
    Parse(ParseError),
    /// The sources parsed, and their records did not merge.
    Merge(MergeError),
}

impl View for BuildError {
    type V = BuildErrorView;

    open spec fn view(&self) -> BuildErrorView {
        match *self {
            BuildError::Parse(e) => BuildErrorView::Parse(e@),
            BuildError::Merge(e) => BuildErrorView::Merge(e@),
        }
    }
}

impl Clone for BuildError {
    fn clone(&self) -> (e: BuildError)
        ensures
            e@ == self@,
    {
        match self {
            BuildError::Parse(e) => BuildError::Parse(e.clone()),
            BuildError::Merge(e) => BuildError::Merge(e.clone()),
        }
    }
}

/// What the first `n` sources give: their records, source after source, or
/// the error of the first source that does not parse.
pub open spec fn gather(kind: SourceKind, inputs: Seq<InputView>, n: int) -> Result<
    Seq<RecordView>,
    ParseErrorView,
>
    decreases n,
{
    if n <= 0 {
        Ok(Seq::empty())
    } else {
        match gather(kind, inputs, n - 1) {
            Err(e) => Err(e),
            Ok(records) => match parse_result(kind, inputs[n - 1].source, inputs[n - 1].bytes) {
                Err(e) => Err(e),
                Ok(more) => Ok(records + more),
            },
        }
    }
}

/// The declarations among records that are all declarations.
pub open spec fn declarations_in(records: Seq<RecordView>) -> Seq<DeclarationView> {
    records.map_values(|r: RecordView| r->Declaration_0)
}

/// The overrides among records that are all overrides.
pub open spec fn overrides_in(records: Seq<RecordView>) -> Seq<OverrideView> {
    records.map_values(|r: RecordView| r->Override_0)
}

/// What a build must give: the parse error of the first source that does not
/// parse, declaration sources before override sources, and where all parse,
/// what the merge of their records gives.
pub open spec fn build_outcome(
    build_id: u32,
    declarations: Seq<InputView>,
    overrides: Seq<InputView>,
    r: Result<CacheView, BuildErrorView>,
) -> bool {
    match gather(SourceKind::Declarations, declarations, declarations.len() as int) {
        Err(e) => r == Err::<CacheView, BuildErrorView>(BuildErrorView::Parse(e)),
        Ok(declared) => match gather(SourceKind::Overrides, overrides, overrides.len() as int) {
            Err(e) => r == Err::<CacheView, BuildErrorView>(BuildErrorView::Parse(e)),
            Ok(asked) => match r {
                Ok(c) => merge_outcome(
                    build_id,
                    declarations_in(declared),
                    overrides_in(asked),
                    Ok(c),
                ),
                Err(BuildErrorView::Merge(e)) => merge_outcome(
                    build_id,
                    declarations_in(declared),
                    overrides_in(asked),
                    Err(e),
                ),
                Err(BuildErrorView::Parse(_)) => false,
            },
        },
    }
}

/// The view of what a build returned.
pub open spec fn build_view(r: Result<Cache, BuildError>) -> Result<CacheView, BuildErrorView> {
    match r {
        Ok(c) => Ok(c@),
        Err(e) => Err(e@),
    }
}

// Once a source does not parse, the sources after it change nothing.
proof fn lemma_gather_stops(kind: SourceKind, inputs: Seq<InputView>, m: int, n: int)
    requires
        m <= n,
        gather(kind, inputs, m) is Err,
    ensures
        gather(kind, inputs, n) == gather(kind, inputs, m),
    decreases n - m,
{
    if m < n {
        lemma_gather_stops(kind, inputs, m, n - 1);
    }
}

// The records of the first `n` sources are the records of each of them.
proof fn lemma_gather_holds(kind: SourceKind, inputs: Seq<InputView>, n: int, x: RecordView)
    requires
        0 <= n <= inputs.len(),
        gather(kind, inputs, n) is Ok,
    ensures
        forall|m: int|
            0 <= m < n ==> parse_result(kind, (#[trigger] inputs[m]).source, inputs[m].bytes)
                is Ok,
        gather(kind, inputs, n)->Ok_0.contains(x) <==> exists|m: int|
            0 <= m < n && parse_result(kind, (#[trigger] inputs[m]).source, inputs[m].bytes)->Ok_0
                .contains(x),
    decreases n,
{
    if n > 0 {
        lemma_gather_holds(kind, inputs, n - 1, x);
        let before = gather(kind, inputs, n - 1)->Ok_0;
        let more = parse_result(kind, inputs[n - 1].source, inputs[n - 1].bytes)->Ok_0;
        let all = gather(kind, inputs, n)->Ok_0;
        assert(all == before + more);
        if all.contains(x) {
            let q = choose|q: int| 0 <= q < all.len() && all[q] == x;
            if q < before.len() {
                assert(before[q] == x);
            } else {
                assert(more[q - before.len()] == x);
            }
        }
        if before.contains(x) {
            let q = choose|q: int| 0 <= q < before.len() && before[q] == x;
            assert(all[q] == x);
        }
        if more.contains(x) {
            let q = choose|q: int| 0 <= q < more.len() && more[q] == x;
            assert(all[before.len() + q] == x);
        }
    }
}

/// The cache does not depend on the order of the declaration sources:
/// building from the same declaration sources in two orders, with the same
/// override sources in the same order, gives the same cache and so the same
/// bytes.
pub proof fn lemma_build_in_any_order(
    build_id: u32,
    first: Seq<InputView>,
    second: Seq<InputView>,
    overrides: Seq<InputView>,
    a: CacheView,
    b: CacheView,
)
    requires
        first.to_multiset() == second.to_multiset(),
        build_outcome(build_id, first, overrides, Ok(a)),
        build_outcome(build_id, second, overrides, Ok(b)),
    ensures
        a == b,
        encode(a) == encode(b),
{
    let kind = SourceKind::Declarations;
    let r1 = gather(kind, first, first.len() as int)->Ok_0;
    let r2 = gather(kind, second, second.len() as int)->Ok_0;
    let asked = gather(SourceKind::Overrides, overrides, overrides.len() as int)->Ok_0;
    let d1 = declarations_in(r1);
    let d2 = declarations_in(r2);
    assert forall|d: DeclarationView| d1.contains(d) <==> d2.contains(d) by {
        if d1.contains(d) {
            let q = choose|q: int| 0 <= q < d1.len() && d1[q] == d;
            lemma_same_records(kind, first, second, r1[q]);
            let p = choose|p: int| 0 <= p < r2.len() && r2[p] == r1[q];
            assert(d2[p] == d);
        }
        if d2.contains(d) {
            let q = choose|q: int| 0 <= q < d2.len() && d2[q] == d;
            lemma_same_records(kind, second, first, r2[q]);
            let p = choose|p: int| 0 <= p < r1.len() && r1[p] == r2[q];
            assert(d1[p] == d);
        }
    }
    lemma_merge_of_same_items(build_id, d1, d2, overrides_in(asked), a, b);
}

// A record of sources is a record of the same sources in another order.
proof fn lemma_same_records(
    kind: SourceKind,
    first: Seq<InputView>,
    second: Seq<InputView>,
    x: RecordView,
)
    requires
        first.to_multiset() == second.to_multiset(),
        gather(kind, first, first.len() as int) is Ok,
        gather(kind, second, second.len() as int) is Ok,
        gather(kind, first, first.len() as int)->Ok_0.contains(x),
    ensures
        gather(kind, second, second.len() as int)->Ok_0.contains(x),
{
    lemma_gather_holds(kind, first, first.len() as int, x);
    lemma_gather_holds(kind, second, second.len() as int, x);
    let m = choose|m: int|
        0 <= m < first.len() && parse_result(
            kind,
            (#[trigger] first[m]).source,
            first[m].bytes,
        )->Ok_0.contains(x);
    vstd::seq_lib::to_multiset_contains(first, first[m]);
    vstd::seq_lib::to_multiset_contains(second, first[m]);
    assert(first.contains(first[m]));
    let k = choose|k: int| 0 <= k < second.len() && second[k] == first[m];
    assert(parse_result(kind, second[k].source, second[k].bytes)->Ok_0.contains(x));
}

/// Parses declaration sources in their order and gives their declarations,
/// source after source.
pub fn read_declarations(inputs: &[Input]) -> (r: Result<Vec<Declaration>, ParseError>)
    ensures
        match r {
            Ok(declarations) => gather(
                SourceKind::Declarations,
                input_views(inputs@),
                inputs.len() as int,
            ) matches Ok(records) && declaration_views(declarations@) == declarations_in(records),
            Err(e) => gather(SourceKind::Declarations, input_views(inputs@), inputs.len() as int)
                == Err::<Seq<RecordView>, ParseErrorView>(e@),
        },
{
    let ghost all = input_views(inputs@);
    let kind = SourceKind::Declarations;
    let mut declarations: Vec<Declaration> = Vec::new();
    let mut n: usize = 0;
    proof {
        assert(declaration_views(declarations@) =~= declarations_in(Seq::empty()));
    }
    while n < inputs.len()
        invariant
            n <= inputs.len(),
            all == input_views(inputs@),
            kind == SourceKind::Declarations,
            gather(kind, all, n as int) matches Ok(records) && declaration_views(declarations@)
                == declarations_in(records),
        decreases inputs.len() - n,
    {
        let input = &inputs[n];
        let ghost before = gather(kind, all, n as int)->Ok_0;
        proof {
            assert(all[n as int] == input@);
        }
        let records = match parse(kind, input.source.as_slice(), input.bytes.as_slice()) {
            Ok(records) => records,
            Err(e) => {
                proof {
                    lemma_gather_stops(kind, all, n + 1, inputs.len() as int);
                }
                return Err(e);
            },
        };
        let ghost more = record_views(records@);
        proof {
            let lines = split(input@.bytes, LINE_FEED);
            lemma_scan_records(kind, lines, input@.source, lines.len() as int);
            assert(before + more.take(0) =~= before);
        }
        let mut i: usize = 0;
        while i < records.len()
            invariant
                i <= records.len(),
                more == record_views(records@),
                forall|q: int| 0 <= q < more.len() ==> (#[trigger] more[q]) is Declaration,
                declaration_views(declarations@) == declarations_in(before + more.take(i as int)),
            decreases records.len() - i,
        {
            let ghost so_far = declaration_views(declarations@);
            proof {
                assert(more[i as int] is Declaration);
            }
            if let Record::Declaration(d) = &records[i] {
                let d = d.clone();
                proof {
                    assert(declaration_views(declarations@.push(d)) =~= so_far.push(d@));
                    assert(before + more.take(i + 1) =~= (before + more.take(i as int)).push(
                        more[i as int],
                    ));
                    assert(declarations_in(before + more.take(i + 1)) =~= so_far.push(d@));
                }
                declarations.push(d);
            }
            i += 1;
        }
        proof {
            assert(more.take(i as int) =~= more);
        }
        n += 1;
    }
    Ok(declarations)
}

/// Parses override sources in their order and gives their overrides, source
/// after source.
pub fn read_overrides(inputs: &[Input]) -> (r: Result<Vec<Override>, ParseError>)
    ensures
        match r {
            Ok(overrides) => gather(
                SourceKind::Overrides,
                input_views(inputs@),
                inputs.len() as int,
            ) matches Ok(records) && override_views(overrides@) == overrides_in(records),
            Err(e) => gather(SourceKind::Overrides, input_views(inputs@), inputs.len() as int)
                == Err::<Seq<RecordView>, ParseErrorView>(e@),
        },
{
    let ghost all = input_views(inputs@);
    let kind = SourceKind::Overrides;
    let mut overrides: Vec<Override> = Vec::new();
    let mut n: usize = 0;
    proof {
        assert(override_views(overrides@) =~= overrides_in(Seq::empty()));
    }
    while n < inputs.len()
        invariant
            n <= inputs.len(),
            all == input_views(inputs@),
            kind == SourceKind::Overrides,
            gather(kind, all, n as int) matches Ok(records) && override_views(overrides@)
                == overrides_in(records),
        decreases inputs.len() - n,
    {
        let input = &inputs[n];
        let ghost before = gather(kind, all, n as int)->Ok_0;
        proof {
            assert(all[n as int] == input@);
        }
        let records = match parse(kind, input.source.as_slice(), input.bytes.as_slice()) {
            Ok(records) => records,
            Err(e) => {
                proof {
                    lemma_gather_stops(kind, all, n + 1, inputs.len() as int);
                }
                return Err(e);
            },
        };
        let ghost more = record_views(records@);
        proof {
            let lines = split(input@.bytes, LINE_FEED);
            lemma_scan_records(kind, lines, input@.source, lines.len() as int);
            assert(before + more.take(0) =~= before);
        }
        let mut i: usize = 0;
        while i < records.len()
            invariant
                i <= records.len(),
                more == record_views(records@),
                forall|q: int| 0 <= q < more.len() ==> (#[trigger] more[q]) is Override,
                override_views(overrides@) == overrides_in(before + more.take(i as int)),
            decreases records.len() - i,
        {
            let ghost so_far = override_views(overrides@);
            proof {
                assert(more[i as int] is Override);
            }
            if let Record::Override(o) = &records[i] {
                let o = o.clone();
                proof {
                    assert(override_views(overrides@.push(o)) =~= so_far.push(o@));
                    assert(before + more.take(i + 1) =~= (before + more.take(i as int)).push(
                        more[i as int],
                    ));
                    assert(overrides_in(before + more.take(i + 1)) =~= so_far.push(o@));
                }
                overrides.push(o);
            }
            i += 1;
        }
        proof {
            assert(more.take(i as int) =~= more);
        }
        n += 1;
    }
    Ok(overrides)
}

/// Builds the cache of build `build_id` from declaration sources and
/// override sources.
pub fn create_cache(build_id: u32, declarations: &[Input], overrides: &[Input]) -> (r: Result<
    Cache,
    BuildError,
>)
    ensures
        build_outcome(
            build_id,
            input_views(declarations@),
            input_views(overrides@),
            build_view(r),
        ),
{
    let declared = match read_declarations(declarations) {
        Ok(declared) => declared,
        Err(e) => {
            return Err(BuildError::Parse(e));
        },
    };
    let asked = match read_overrides(overrides) {
        Ok(asked) => asked,
        Err(e) => {
            return Err(BuildError::Parse(e));
        },
    };
    match merge(build_id, declared.as_slice(), asked.as_slice()) {
        Ok(cache) => Ok(cache),
        Err(e) => Err(BuildError::Merge(e)),
    }
}

/// How a cache is shown.
#[derive(Clone, Copy, Debug, PartialEq, Eq, Structural)]
pub enum Format {
    /// The short form. One line for each flag: its key and its state.
    Text,
    /// The long form. One line for each flag, with all that the cache holds
    /// of it, cells separated by tabs.
    Debug,
}

/// The byte between namespace and name.
pub const DOT: u8 = 0x2e;

/// The byte after the key in the short form.
pub const COLON: u8 = 0x3a;

/// The byte after the colon.
pub const SPACE: u8 = 0x20;

/// The word `DEFAULT`.
pub open spec fn default_word() -> Seq<u8> {
    seq![0x44u8, 0x45, 0x46, 0x41, 0x55, 0x4c, 0x54]
}

/// The word `OVERRIDE`.
pub open spec fn override_word() -> Seq<u8> {
    seq![0x4fu8, 0x56, 0x45, 0x52, 0x52, 0x49, 0x44, 0x45]
}

/// The word for a state.
pub open spec fn state_name(s: FlagState) -> Seq<u8> {
    match s {
        FlagState::Enabled => enabled_word(),
        FlagState::Disabled => disabled_word(),
    }
}

/// The word for a permission.
pub open spec fn permission_name(p: Permission) -> Seq<u8> {
    match p {
        Permission::ReadOnly => read_only_word(),
        Permission::ReadWrite => read_write_word(),
    }
}

/// The word for the origin of a state.
pub open spec fn origin_name(r: ResolvedBy) -> Seq<u8> {
    match r {
        ResolvedBy::Default => default_word(),
        ResolvedBy::Override => override_word(),
    }
}

/// The line that shows one flag.
///
/// ```text
/// text  = namespace "." name ": " state LF
/// debug = namespace "." name TAB state TAB permission TAB origin TAB tracking TAB description LF
/// ```
pub open spec fn shown_flag(f: ResolvedFlagView, format: Format) -> Seq<u8> {
    let key = f.key.namespace + seq![DOT] + f.key.name;
    match format {
        Format::Text => key + seq![COLON, SPACE] + state_name(f.state) + seq![LINE_FEED],
        Format::Debug => key + seq![TAB] + state_name(f.state) + seq![TAB] + permission_name(
            f.permission,
        ) + seq![TAB] + origin_name(f.resolved_by) + seq![TAB] + f.tracking + seq![TAB]
            + f.description + seq![LINE_FEED],
    }
}

/// The lines that show flags, in the order of the flags.
pub open spec fn shown(flags: Seq<ResolvedFlagView>, format: Format) -> Seq<u8>
    decreases flags.len(),
{
    if flags.len() == 0 {
        Seq::empty()
    } else {
        shown(flags.drop_last(), format) + shown_flag(flags.last(), format)
    }
}

fn put_state(out: &mut Vec<u8>, s: FlagState)
    ensures
        final(out)@ == old(out)@ + state_name(s),
{
    let word: Vec<u8> = match s {
        FlagState::Enabled => vec![0x45u8, 0x4e, 0x41, 0x42, 0x4c, 0x45, 0x44],
        FlagState::Disabled => vec![0x44u8, 0x49, 0x53, 0x41, 0x42, 0x4c, 0x45, 0x44],
    };
    proof {
        assert(word@ =~= state_name(s));
    }
    append_bytes(out, word.as_slice());
}

fn put_permission(out: &mut Vec<u8>, p: Permission)
    ensures
        final(out)@ == old(out)@ + permission_name(p),
{
    let word: Vec<u8> = match p {
        Permission::ReadOnly => vec![0x52u8, 0x45, 0x41, 0x44, 0x5f, 0x4f, 0x4e, 0x4c, 0x59],
        Permission::ReadWrite => vec![0x52u8, 0x45, 0x41, 0x44, 0x5f, 0x57, 0x52, 0x49, 0x54, 0x45],
    };
    proof {
        assert(word@ =~= permission_name(p));
    }
    append_bytes(out, word.as_slice());
}

fn put_origin(out: &mut Vec<u8>, r: ResolvedBy)
    ensures
        final(out)@ == old(out)@ + origin_name(r),
{
    let word: Vec<u8> = match r {
        ResolvedBy::Default => vec![0x44u8, 0x45, 0x46, 0x41, 0x55, 0x4c, 0x54],
        ResolvedBy::Override => vec![0x4fu8, 0x56, 0x45, 0x52, 0x52, 0x49, 0x44, 0x45],
    };
    proof {
        assert(word@ =~= origin_name(r));
    }
    append_bytes(out, word.as_slice());
}

fn put_shown_flag(out: &mut Vec<u8>, f: &ResolvedFlag, format: Format)
    ensures
        final(out)@ == old(out)@ + shown_flag(f@, format),
{
    append_bytes(out, f.key.namespace());
    out.push(DOT);
    append_bytes(out, f.key.name());
    match format {
        Format::Text => {
            out.push(COLON);
            out.push(SPACE);
            put_state(out, f.state);
        },
        Format::Debug => {
            out.push(TAB);
            put_state(out, f.state);
            out.push(TAB);
            put_permission(out, f.permission);
            out.push(TAB);
            put_origin(out, f.resolved_by);
            out.push(TAB);
            append_bytes(out, f.tracking.as_slice());
            out.push(TAB);
            append_bytes(out, f.description.as_slice());
        },
    }
    out.push(LINE_FEED);
    proof {
        assert(out@ =~= old(out)@ + shown_flag(f@, format));
    }
}

/// Shows a cache: the lines of its flags, in their order.
pub fn dump_cache(cache: &Cache, format: Format) -> (out: Vec<u8>)
    ensures
        out@ == shown(cache@.flags, format),
{
    let flags = cache.flags();
    let ghost views = flag_views(flags@);
    let mut out: Vec<u8> = Vec::new();
    let mut i: usize = 0;
    proof {
        assert(views.take(0) =~= Seq::<ResolvedFlagView>::empty());
    }
    while i < flags.len()
        invariant
            i <= flags.len(),
            views == flag_views(flags@),
            out@ == shown(views.take(i as int), format),
        decreases flags.len() - i,
    {
        put_shown_flag(&mut out, &flags[i], format);
        proof {
            assert(views.take(i + 1).drop_last() =~= views.take(i as int));
            assert(views.take(i + 1).last() == views[i as int]);
        }
        i += 1;
    }
    proof {
        assert(views.take(i as int) =~= views);
    }
    out
}

} // verus!
