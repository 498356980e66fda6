//! The merge engine: declarations and overrides in, one cache out.
//!
//! Every declared flag gets exactly one resolved flag. Its state is the state
//! that the last override naming it asked for, and its declared default where
//! no override names it. The resolved flags are ordered by key, so the result
//! does not depend on the order in which declarations were read.
//!
//! A merge fails as a whole. Declarations are checked first: two declarations
//! of one key are refused. Overrides are checked next, in their order: one
//! that names no declared flag, or a read-only flag, is refused.

use crate::cache::Cache;
use crate::model::{
    declaration_views, flag_views, lemma_key_lt_asymmetric, lemma_key_lt_transitive,
    lemma_sorted_flags_unique, override_views, sorted_by_key, CacheView, Declaration,
    DeclarationView, FlagKey, FlagKeyView, FlagState, Override, OverrideView, Permission,
    ResolvedBy, ResolvedFlag, ResolvedFlagView,
};
use crate::text::{copy_bytes, Rel};
use crate::wire::encode;
use vstd::prelude::*;

verus! {

/// Why a merge was refused, as mathematical data.
pub enum MergeErrorView {
    DuplicateDeclaration { key: FlagKeyView, first_source: Seq<u8>, second_source: Seq<u8> },
    UnknownFlagOverride { key: FlagKeyView, source: Seq<u8> },
    PermissionDenied { key: FlagKeyView, source: Seq<u8> },
}

/// Why a merge was refused.
#[derive(Debug, PartialEq, Eq)]
pub enum MergeError {
    /// Two declarations have the same key. The sources are those of the
    /// earlier and of the later of the two.
    DuplicateDeclaration { key: FlagKey, first_source: Vec<u8>, second_source: Vec<u8> },
    /// An override names a flag that nothing declares. The source is the
    /// override's.
    UnknownFlagOverride { key: FlagKey, source: Vec<u8> },
    /// An override names a read-only flag. The source is the override's.
    PermissionDenied { key: FlagKey, source: Vec<u8> },
}

impl View for MergeError {
    type V = MergeErrorView;

    open spec fn view(&self) -> MergeErrorView {
        match *self {
            MergeError::DuplicateDeclaration { key, first_source, second_source } => {
                MergeErrorView::DuplicateDeclaration {
                    key: key@,
                    first_source: first_source@,
                    second_source: second_source@,
                }
            },
            MergeError::UnknownFlagOverride { key, source } => {
                MergeErrorView::UnknownFlagOverride { key: key@, source: source@ }
            },
            MergeError::PermissionDenied { key, source } => {
                MergeErrorView::PermissionDenied { key: key@, source: source@ }
            },
        }
    }
}

impl Clone for MergeError {
    fn clone(&self) -> (e: MergeError)
        ensures
            e@ == self@,
    {
        match self {
            MergeError::DuplicateDeclaration { key, first_source, second_source } => {
                MergeError::DuplicateDeclaration {
                    key: key.clone(),
                    first_source: copy_bytes(first_source.as_slice()),
                    second_source: copy_bytes(second_source.as_slice()),
                }
            },
            MergeError::UnknownFlagOverride { key, source } => MergeError::UnknownFlagOverride {
                key: key.clone(),
                source: copy_bytes(source.as_slice()),
            },
            MergeError::PermissionDenied { key, source } => MergeError::PermissionDenied {
                key: key.clone(),
                source: copy_bytes(source.as_slice()),
            },
        }
    }
}

/// No two declarations have the same key.
pub open spec fn distinct(decls: Seq<DeclarationView>) -> bool {
    forall|i: int, j: int|
        0 <= i < j < decls.len() ==> (#[trigger] decls[i]).key != (#[trigger] decls[j]).key
}

/// No declaration has this key.
pub open spec fn unknown(decls: Seq<DeclarationView>, key: FlagKeyView) -> bool {
    forall|i: int| 0 <= i < decls.len() ==> (#[trigger] decls[i]).key != key
}

/// A read-only declaration has this key.
pub open spec fn denied(decls: Seq<DeclarationView>, key: FlagKeyView) -> bool {
    exists|i: int|
        0 <= i < decls.len() && (#[trigger] decls[i]).key == key && decls[i].permission
            == Permission::ReadOnly
}

/// An override of this key is refused: the key is unknown or read-only.
pub open spec fn refused(decls: Seq<DeclarationView>, key: FlagKeyView) -> bool {
    unknown(decls, key) || denied(decls, key)
}

/// No override is refused.
pub open spec fn accepted(decls: Seq<DeclarationView>, ovs: Seq<OverrideView>) -> bool {
    forall|k: int| 0 <= k < ovs.len() ==> !refused(decls, (#[trigger] ovs[k]).key)
}

/// The inputs on which a merge succeeds.
pub open spec fn mergeable(decls: Seq<DeclarationView>, ovs: Seq<OverrideView>) -> bool {
    distinct(decls) && accepted(decls, ovs)
}

/// The state that the overrides ask for a key: that of the last override
/// naming it, if any does.
pub open spec fn requested(ovs: Seq<OverrideView>, key: FlagKeyView) -> Option<FlagState>
    decreases ovs.len(),
{
    if ovs.len() == 0 {
        None
    } else if ovs.last().key == key {
        Some(ovs.last().state)
    } else {
        requested(ovs.drop_last(), key)
    }
}

/// The resolved flag of a declaration under the given overrides.
pub open spec fn resolve(d: DeclarationView, ovs: Seq<OverrideView>) -> ResolvedFlagView {
    ResolvedFlagView {
        key: d.key,
        description: d.description,
        tracking: d.tracking,
        permission: d.permission,
        state: match requested(ovs, d.key) {
            Some(state) => state,
            None => d.default_state,
        },
        resolved_by: match requested(ovs, d.key) {
            Some(_) => ResolvedBy::Override,
            None => ResolvedBy::Default,
        },
    }
}

/// `c` is the merge of the declarations and overrides: a well-formed cache
/// of the given build that holds the resolved flag of every declaration and
/// nothing else.
pub open spec fn merged(
    c: CacheView,
    build_id: u32,
    decls: Seq<DeclarationView>,
    ovs: Seq<OverrideView>,
) -> bool {
    &&& c.build_id == build_id
    &&& c.wf()
    &&& c.flags.len() == decls.len()
    &&& forall|i: int|
        0 <= i < decls.len() ==> c.flags.contains(resolve(#[trigger] decls[i], ovs))
    &&& forall|p: int|
        0 <= p < c.flags.len() ==> exists|i: int|
            0 <= i < decls.len() && #[trigger] c.flags[p] == resolve(#[trigger] decls[i], ovs)
}

/// Declaration `j` is the first to repeat a key, and `i` is the earlier
/// declaration of that key.
pub open spec fn first_repeat(decls: Seq<DeclarationView>, i: int, j: int) -> bool {
    &&& 0 <= i < j < decls.len()
    &&& decls[i].key == decls[j].key
    &&& distinct(decls.take(j))
}

/// Override `k` is the first that is refused.
pub open spec fn first_refused(
    decls: Seq<DeclarationView>,
    ovs: Seq<OverrideView>,
    k: int,
) -> bool {
    &&& 0 <= k < ovs.len()
    &&& refused(decls, ovs[k].key)
    &&& accepted(decls, ovs.take(k))
}

/// The inputs on which a merge fails with error `e`.
pub open spec fn rejected(
    decls: Seq<DeclarationView>,
    ovs: Seq<OverrideView>,
    e: MergeErrorView,
) -> bool {
    match e {
        MergeErrorView::DuplicateDeclaration { key, first_source, second_source } => {
            exists|i: int, j: int|
                #![trigger decls[i], decls[j]]
                first_repeat(decls, i, j) && key == decls[j].key && first_source
                    == decls[i].source && second_source == decls[j].source
        },
        MergeErrorView::UnknownFlagOverride { key, source } => {
            distinct(decls) && exists|k: int|
                first_refused(decls, ovs, k) && unknown(decls, key) && key == (
                #[trigger] ovs[k]).key && source == ovs[k].source
        },
        MergeErrorView::PermissionDenied { key, source } => {
            distinct(decls) && exists|k: int|
                first_refused(decls, ovs, k) && !unknown(decls, key) && key == (
                #[trigger] ovs[k]).key && source == ovs[k].source
        },
    }
}

/// What a merge must give: on mergeable inputs their merge, and on all others
/// the error of the first fault.
pub open spec fn merge_outcome(
    build_id: u32,
    decls: Seq<DeclarationView>,
    ovs: Seq<OverrideView>,
    r: Result<CacheView, MergeErrorView>,
) -> bool {
    match r {
        Ok(c) => mergeable(decls, ovs) && merged(c, build_id, decls, ovs),
        Err(e) => !mergeable(decls, ovs) && rejected(decls, ovs, e),
    }
}

/// The view of what a merge returned.
pub open spec fn outcome_view(r: Result<Cache, MergeError>) -> Result<CacheView, MergeErrorView> {
    match r {
        Ok(c) => Ok(c@),
        Err(e) => Err(e@),
    }
}

// Declaration `i` is the origin of some flag.
spec fn placed(origin: Seq<int>, i: int) -> bool {
    exists|p: int| 0 <= p < origin.len() && #[trigger] origin[p] == i
}

// Flag `p` is the resolved flag of declaration `origin[p]`, and each of the
// first `n` declarations is the origin of some flag.
spec fn tracks(
    flags: Seq<ResolvedFlagView>,
    origin: Seq<int>,
    decls: Seq<DeclarationView>,
    ovs: Seq<OverrideView>,
    n: int,
) -> bool {
    &&& flags.len() == n
    &&& origin.len() == n
    &&& forall|p: int|
        0 <= p < n ==> 0 <= #[trigger] origin[p] < n && flags[p] == resolve(decls[origin[p]], ovs)
            && flags[p].wf()
    &&& forall|i: int| 0 <= i < n ==> #[trigger] placed(origin, i)
}

// Where `key` stands, or would stand, among flags in order: the position of
// the first flag whose key is not smaller, and whether that flag has the key.
fn locate(flags: &Vec<ResolvedFlag>, key: &FlagKey) -> (r: (usize, bool))
    requires
        sorted_by_key(flag_views(flags@)),
    ensures
        r.0 <= flags.len(),
        forall|q: int| 0 <= q < r.0 ==> (#[trigger] flag_views(flags@)[q]).key.lt(key@),
        r.1 ==> r.0 < flags.len() && flag_views(flags@)[r.0 as int].key == key@,
        !r.1 ==> forall|q: int|
            r.0 <= q < flags.len() ==> key@.lt((#[trigger] flag_views(flags@)[q]).key),
{
    let ghost views = flag_views(flags@);
    let mut low: usize = 0;
    let mut high: usize = flags.len();
    while low < high
        invariant
            low <= high <= flags.len(),
            views == flag_views(flags@),
            sorted_by_key(views),
            forall|q: int| 0 <= q < low ==> (#[trigger] views[q]).key.lt(key@),
            forall|q: int| high <= q < flags.len() ==> key@.lt((#[trigger] views[q]).key),
        decreases high - low,
    {
        let middle = low + (high - low) / 2;
        match flags[middle].key.compare(key) {
            Rel::Less => {
                proof {
                    assert forall|q: int| 0 <= q < middle + 1 implies (#[trigger] views[q]).key.lt(
                        key@,
                    ) by {
                        if q < middle {
                            lemma_key_lt_transitive(views[q].key, views[middle as int].key, key@);
                        }
                    }
                }
                low = middle + 1;
            },
            Rel::Equal => {
                proof {
                    assert forall|q: int| 0 <= q < middle implies (#[trigger] views[q]).key.lt(
                        key@,
                    ) by {
                        assert(views[q].key.lt(views[middle as int].key));
                    }
                }
                return (middle, true);
            },
            Rel::Greater => {
                proof {
                    assert forall|q: int| middle <= q < flags.len() implies key@.lt(
                        (#[trigger] views[q]).key,
                    ) by {
                        if q > middle {
                            lemma_key_lt_transitive(key@, views[middle as int].key, views[q].key);
                        }
                    }
                }
                high = middle;
            },
        }
    }
    (low, false)
}

// The resolved flag of a declaration that no override names.
fn declared_flag(d: &Declaration) -> (f: ResolvedFlag)
    ensures
        f@ == resolve(d@, Seq::empty()),
        f@.wf(),
{
    let description = copy_bytes(d.description.as_slice());
    let tracking = copy_bytes(d.tracking.as_slice());
    proof {
        assert(description@.len() == description.len() && tracking@.len() == tracking.len());
    }
    ResolvedFlag {
        key: d.key.clone(),
        description,
        tracking,
        permission: d.permission,
        state: d.default_state,
        resolved_by: ResolvedBy::Default,
    }
}

// Gives flag `p` the state that an override asks for.
fn set_state(flags: &mut Vec<ResolvedFlag>, p: usize, state: FlagState)
    requires
        p < old(flags).len(),
    ensures
        flag_views(final(flags)@) == flag_views(old(flags)@).update(
            p as int,
            (ResolvedFlagView {
                state,
                resolved_by: ResolvedBy::Override,
                ..flag_views(old(flags)@)[p as int]
            }),
        ),
{
    flags[p].state = state;
    flags[p].resolved_by = ResolvedBy::Override;
    proof {
        assert(flag_views(flags@) =~= flag_views(old(flags)@).update(
            p as int,
            (ResolvedFlagView {
                state,
                resolved_by: ResolvedBy::Override,
                ..flag_views(old(flags)@)[p as int]
            }),
        ));
    }
}

// The position of the first declaration of `key`, where there is one.
fn first_with_key(declarations: &[Declaration], key: &FlagKey) -> (i: usize)
    requires
        !unknown(declaration_views(declarations@), key@),
    ensures
        i < declarations.len(),
        declaration_views(declarations@)[i as int].key == key@,
        forall|m: int| 0 <= m < i ==> (#[trigger] declaration_views(declarations@)[m]).key != key@,
{
    let ghost decls = declaration_views(declarations@);
    let mut i: usize = 0;
    while i < declarations.len()
        invariant
            i <= declarations.len(),
            decls == declaration_views(declarations@),
            forall|m: int| 0 <= m < i ==> (#[trigger] decls[m]).key != key@,
        decreases declarations.len() - i,
    {
        if declarations[i].key.compare(key) == Rel::Equal {
            return i;
        }
        i += 1;
    }
    proof {
        assert(unknown(decls, key@));
    }
    i
}

// Putting the flag of declaration `j` at its place keeps the flags in order
// and in step with the declarations.
proof fn lemma_insert(
    flags: Seq<ResolvedFlagView>,
    origin: Seq<int>,
    decls: Seq<DeclarationView>,
    j: int,
    p: int,
    f: ResolvedFlagView,
)
    requires
        sorted_by_key(flags),
        tracks(flags, origin, decls, Seq::empty(), j),
        distinct(decls.take(j)),
        0 <= j < decls.len(),
        0 <= p <= j,
        forall|q: int| 0 <= q < p ==> (#[trigger] flags[q]).key.lt(f.key),
        forall|q: int| p <= q < j ==> f.key.lt((#[trigger] flags[q]).key),
        f == resolve(decls[j], Seq::empty()),
        f.wf(),
    ensures
        sorted_by_key(flags.insert(p, f)),
        tracks(flags.insert(p, f), origin.insert(p, j), decls, Seq::empty(), j + 1),
        distinct(decls.take(j + 1)),
{
    let flags2 = flags.insert(p, f);
    let origin2 = origin.insert(p, j);
    assert forall|a: int, b: int| 0 <= a < b < flags2.len() implies flags2[a].key.lt(
        flags2[b].key,
    ) by {
        if b < p {
            assert(flags[a].key.lt(flags[b].key));
        } else if b == p {
            assert(flags[a].key.lt(f.key));
        } else if a < p {
            assert(flags[a].key.lt(f.key));
            assert(f.key.lt(flags[b - 1].key));
            lemma_key_lt_transitive(flags[a].key, f.key, flags[b - 1].key);
        } else if a == p {
            assert(f.key.lt(flags[b - 1].key));
        } else {
            assert(flags[a - 1].key.lt(flags[b - 1].key));
        }
    }
    assert forall|q: int| 0 <= q < j + 1 implies 0 <= #[trigger] origin2[q] < j + 1 && flags2[q]
        == resolve(decls[origin2[q]], Seq::empty()) && flags2[q].wf() by {
        if q < p {
            assert(origin2[q] == origin[q]);
        } else if q > p {
            assert(origin2[q] == origin[q - 1]);
        }
    }
    assert forall|i: int| 0 <= i < j + 1 implies #[trigger] placed(origin2, i) by {
        if i == j {
            assert(origin2[p] == j);
        } else {
            assert(placed(origin, i));
            let q = choose|q: int| 0 <= q < origin.len() && origin[q] == i;
            if q < p {
                assert(origin2[q] == i);
            } else {
                assert(origin2[q + 1] == i);
            }
        }
    }
    let before = decls.take(j);
    let now = decls.take(j + 1);
    assert forall|a: int, b: int| 0 <= a < b < now.len() implies (#[trigger] now[a]).key != (
    #[trigger] now[b]).key by {
        if b < j {
            assert(before[a].key != before[b].key);
        } else {
            assert(placed(origin, a));
            let q = choose|q: int| 0 <= q < origin.len() && origin[q] == a;
            assert(flags[q].key == decls[a].key);
            if q < p {
                lemma_key_lt_asymmetric(flags[q].key, f.key);
            } else {
                lemma_key_lt_asymmetric(f.key, flags[q].key);
            }
        }
    }
}

// A key that no flag has is a key that no declaration has.
proof fn lemma_absent(
    flags: Seq<ResolvedFlagView>,
    origin: Seq<int>,
    decls: Seq<DeclarationView>,
    ovs: Seq<OverrideView>,
    key: FlagKeyView,
)
    requires
        tracks(flags, origin, decls, ovs, decls.len() as int),
        forall|q: int| 0 <= q < flags.len() ==> (#[trigger] flags[q]).key != key,
    ensures
        unknown(decls, key),
{
    assert forall|i: int| 0 <= i < decls.len() implies (#[trigger] decls[i]).key != key by {
        assert(placed(origin, i));
        let q = choose|q: int| 0 <= q < origin.len() && origin[q] == i;
        assert(flags[q].key == decls[i].key);
    }
}

// Giving flag `p` the state that override `k` asks for keeps the flags in
// order and in step with the declarations, one override further on.
proof fn lemma_apply(
    flags: Seq<ResolvedFlagView>,
    origin: Seq<int>,
    decls: Seq<DeclarationView>,
    ovs: Seq<OverrideView>,
    k: int,
    p: int,
)
    requires
        sorted_by_key(flags),
        tracks(flags, origin, decls, ovs.take(k), decls.len() as int),
        distinct(decls),
        accepted(decls, ovs.take(k)),
        0 <= k < ovs.len(),
        0 <= p < flags.len(),
        flags[p].key == ovs[k].key,
        flags[p].permission != Permission::ReadOnly,
    ensures
        ({
            let changed = ResolvedFlagView {
                state: ovs[k].state,
                resolved_by: ResolvedBy::Override,
                ..flags[p]
            };
            &&& sorted_by_key(flags.update(p, changed))
            &&& tracks(flags.update(p, changed), origin, decls, ovs.take(k + 1), decls.len() as int)
            &&& accepted(decls, ovs.take(k + 1))
        }),
{
    let changed = ResolvedFlagView {
        state: ovs[k].state,
        resolved_by: ResolvedBy::Override,
        ..flags[p]
    };
    let flags2 = flags.update(p, changed);
    let before = ovs.take(k);
    let now = ovs.take(k + 1);
    let n = decls.len() as int;
    assert(now.drop_last() =~= before);
    assert(now.last() == ovs[k]);
    assert forall|a: int, b: int| 0 <= a < b < flags2.len() implies flags2[a].key.lt(
        flags2[b].key,
    ) by {
        assert(flags[a].key.lt(flags[b].key));
    }
    assert forall|q: int| 0 <= q < n implies 0 <= #[trigger] origin[q] < n && flags2[q]
        == resolve(decls[origin[q]], now) && flags2[q].wf() by {
        assert(flags[q] == resolve(decls[origin[q]], before));
        if q != p {
            if q < p {
                lemma_key_lt_asymmetric(flags[q].key, flags[p].key);
            } else {
                lemma_key_lt_asymmetric(flags[p].key, flags[q].key);
            }
            assert(requested(now, flags[q].key) == requested(before, flags[q].key));
        }
    }
    assert forall|m: int| 0 <= m < now.len() implies !refused(decls, (#[trigger] now[m]).key) by {
        if m < k {
            assert(!refused(decls, before[m].key));
        } else {
            let i = origin[p];
            assert(decls[i].key == ovs[k].key);
            assert forall|i2: int|
                0 <= i2 < decls.len() && (#[trigger] decls[i2]).key
                    == ovs[k].key implies decls[i2].permission != Permission::ReadOnly by {
                if i2 < i {
                    assert(decls[i2].key != decls[i].key);
                } else if i < i2 {
                    assert(decls[i].key != decls[i2].key);
                }
            }
        }
    }
}

// Flags in order and in step with all declarations are their merge.
proof fn lemma_merged(
    build_id: u32,
    flags: Seq<ResolvedFlagView>,
    origin: Seq<int>,
    decls: Seq<DeclarationView>,
    ovs: Seq<OverrideView>,
)
    requires
        sorted_by_key(flags),
        tracks(flags, origin, decls, ovs, decls.len() as int),
        decls.len() <= u64::MAX,
    ensures
        merged(CacheView { build_id, flags }, build_id, decls, ovs),
{
    assert forall|i: int| 0 <= i < decls.len() implies flags.contains(
        resolve(#[trigger] decls[i], ovs),
    ) by {
        assert(placed(origin, i));
        let q = choose|q: int| 0 <= q < origin.len() && origin[q] == i;
        assert(flags[q] == resolve(decls[i], ovs));
    }
    assert forall|p: int| 0 <= p < flags.len() implies exists|i: int|
        0 <= i < decls.len() && #[trigger] flags[p] == resolve(#[trigger] decls[i], ovs) by {
        let i = origin[p];
        assert(flags[p] == resolve(decls[i], ovs));
    }
    assert forall|p: int| 0 <= p < flags.len() implies (#[trigger] flags[p]).wf() by {
        assert(0 <= origin[p]);
    }
}

/// Merges declarations and overrides into the cache of build `build_id`.
///
/// The order of the declarations does not matter to the cache. The order of
/// the overrides does: of two overrides of one flag the later wins.
pub fn merge(build_id: u32, declarations: &[Declaration], overrides: &[Override]) -> (r: Result<
    Cache,
    MergeError,
>)
    ensures
        merge_outcome(
            build_id,
            declaration_views(declarations@),
            override_views(overrides@),
            outcome_view(r),
        ),
{
    let ghost decls = declaration_views(declarations@);
    let ghost ovs = override_views(overrides@);
    let mut flags: Vec<ResolvedFlag> = Vec::new();
    let ghost mut origin: Seq<int> = Seq::empty();
    let mut j: usize = 0;
    while j < declarations.len()
        invariant
            j <= declarations.len(),
            decls == declaration_views(declarations@),
            sorted_by_key(flag_views(flags@)),
            tracks(flag_views(flags@), origin, decls, Seq::empty(), j as int),
            distinct(decls.take(j as int)),
        decreases declarations.len() - j,
    {
        let d = &declarations[j];
        let ghost views = flag_views(flags@);
        let (p, found) = locate(&flags, &d.key);
        if found {
            proof {
                let earlier = origin[p as int];
                assert(views[p as int] == resolve(decls[earlier], Seq::empty()));
                assert(decls[earlier].key == d.key@);
            }
            let i = first_with_key(declarations, &d.key);
            proof {
                let earlier = origin[p as int];
                if earlier < i {
                    assert(decls[earlier].key != d.key@);
                }
                assert(first_repeat(decls, i as int, j as int));
                assert(decls[i as int].key == decls[j as int].key);
            }
            return Err(
                MergeError::DuplicateDeclaration {
                    key: d.key.clone(),
                    first_source: copy_bytes(declarations[i].source.as_slice()),
                    second_source: copy_bytes(d.source.as_slice()),
                },
            );
        }
        let f = declared_flag(d);
        proof {
            lemma_insert(views, origin, decls, j as int, p as int, f@);
            origin = origin.insert(p as int, j as int);
            assert(flag_views(flags@.insert(p as int, f)) =~= views.insert(p as int, f@));
        }
        flags.insert(p, f);
        j += 1;
    }
    proof {
        assert(decls.take(j as int) =~= decls);
        assert(ovs.take(0) =~= Seq::<OverrideView>::empty());
    }
    let mut k: usize = 0;
    while k < overrides.len()
        invariant
            k <= overrides.len(),
            decls == declaration_views(declarations@),
            ovs == override_views(overrides@),
            distinct(decls),
            sorted_by_key(flag_views(flags@)),
            tracks(flag_views(flags@), origin, decls, ovs.take(k as int), decls.len() as int),
            accepted(decls, ovs.take(k as int)),
        decreases overrides.len() - k,
    {
        let o = &overrides[k];
        let ghost views = flag_views(flags@);
        let (p, found) = locate(&flags, &o.key);
        if !found {
            proof {
                assert forall|q: int| 0 <= q < views.len() implies (#[trigger] views[q]).key
                    != o.key@ by {
                    if q < p {
                        lemma_key_lt_asymmetric(views[q].key, o.key@);
                    } else {
                        lemma_key_lt_asymmetric(o.key@, views[q].key);
                    }
                }
                lemma_absent(views, origin, decls, ovs.take(k as int), o.key@);
                assert(first_refused(decls, ovs, k as int));
                assert(refused(decls, ovs[k as int].key));
            }
            return Err(
                MergeError::UnknownFlagOverride {
                    key: o.key.clone(),
                    source: copy_bytes(o.source.as_slice()),
                },
            );
        }
        if flags[p].permission == Permission::ReadOnly {
            proof {
                let i = origin[p as int];
                assert(views[p as int] == resolve(decls[i], ovs.take(k as int)));
                assert(decls[i].key == o.key@ && decls[i].permission == Permission::ReadOnly);
                assert(denied(decls, o.key@));
                assert(first_refused(decls, ovs, k as int));
                assert(refused(decls, ovs[k as int].key));
            }
            return Err(
                MergeError::PermissionDenied {
                    key: o.key.clone(),
                    source: copy_bytes(o.source.as_slice()),
                },
            );
        }
        proof {
            lemma_apply(views, origin, decls, ovs, k as int, p as int);
        }
        set_state(&mut flags, p, o.state);
        k += 1;
    }
    proof {
        assert(ovs.take(k as int) =~= ovs);
        lemma_merged(build_id, flag_views(flags@), origin, decls, ovs);
    }
    Ok(Cache::from_sorted(build_id, flags))
}

// Declarations that hold the same items hold the same keys.
proof fn lemma_same_items(
    first: Seq<DeclarationView>,
    second: Seq<DeclarationView>,
    i: int,
) -> (m: int)
    requires
        first.to_multiset() == second.to_multiset(),
        0 <= i < first.len(),
    ensures
        0 <= m < second.len(),
        second[m] == first[i],
{
    vstd::seq_lib::to_multiset_contains(first, first[i]);
    vstd::seq_lib::to_multiset_contains(second, first[i]);
    assert(first.contains(first[i]));
    choose|m: int| 0 <= m < second.len() && second[m] == first[i]
}

// A key declared twice is declared twice in whatever order.
proof fn lemma_repeat_stays(first: Seq<DeclarationView>, second: Seq<DeclarationView>)
    requires
        first.to_multiset() == second.to_multiset(),
        !distinct(first),
    ensures
        !distinct(second),
{
    broadcast use vstd::multiset::group_multiset_axioms;

    let (i, j) = choose|i: int, j: int|
        0 <= i < j < first.len() && (#[trigger] first[i]).key == (#[trigger] first[j]).key;
    let p = lemma_same_items(first, second, i);
    let q = if first[i] != first[j] {
        lemma_same_items(first, second, j)
    } else {
        // The item stands twice in `first`, so also twice in `second`.
        let x = first[i];
        vstd::seq_lib::to_multiset_remove(first, i);
        vstd::seq_lib::to_multiset_remove(second, p);
        assert(first.remove(i)[j - 1] == x);
        assert(first.remove(i).contains(x));
        vstd::seq_lib::to_multiset_contains(first.remove(i), x);
        vstd::seq_lib::to_multiset_contains(second.remove(p), x);
        let w = choose|w: int| 0 <= w < second.remove(p).len() && second.remove(p)[w] == x;
        if w < p {
            w
        } else {
            w + 1
        }
    };
    assert(p != q);
    if p < q {
        assert(second[p].key == second[q].key);
    } else {
        assert(second[q].key == second[p].key);
    }
}

// An override that is refused is refused in whatever order the declarations
// stand.
proof fn lemma_refusal_stays(
    first: Seq<DeclarationView>,
    second: Seq<DeclarationView>,
    key: FlagKeyView,
)
    requires
        first.to_multiset() == second.to_multiset(),
        refused(first, key),
    ensures
        refused(second, key),
{
    if unknown(first, key) {
        assert forall|m: int| 0 <= m < second.len() implies (#[trigger] second[m]).key != key by {
            let i = lemma_same_items(second, first, m);
            assert(first[i].key != key);
        }
    } else {
        let i = choose|i: int|
            0 <= i < first.len() && (#[trigger] first[i]).key == key && first[i].permission
                == Permission::ReadOnly;
        let m = lemma_same_items(first, second, i);
        assert(second[m].key == key);
    }
}

/// Whether a merge succeeds does not depend on the order of the
/// declarations.
pub proof fn lemma_mergeable_in_any_order(
    first: Seq<DeclarationView>,
    second: Seq<DeclarationView>,
    ovs: Seq<OverrideView>,
)
    requires
        first.to_multiset() == second.to_multiset(),
    ensures
        mergeable(first, ovs) == mergeable(second, ovs),
{
    if !distinct(first) {
        lemma_repeat_stays(first, second);
    }
    if !distinct(second) {
        lemma_repeat_stays(second, first);
    }
    if !accepted(first, ovs) {
        let k = choose|k: int| 0 <= k < ovs.len() && refused(first, (#[trigger] ovs[k]).key);
        lemma_refusal_stays(first, second, ovs[k].key);
    }
    if !accepted(second, ovs) {
        let k = choose|k: int| 0 <= k < ovs.len() && refused(second, (#[trigger] ovs[k]).key);
        lemma_refusal_stays(second, first, ovs[k].key);
    }
}

/// The cache depends only on which declarations there are: two merges whose
/// declarations are the same items, in whatever order, give the same cache.
pub proof fn lemma_merge_of_same_items(
    build_id: u32,
    first: Seq<DeclarationView>,
    second: Seq<DeclarationView>,
    ovs: Seq<OverrideView>,
    a: CacheView,
    b: CacheView,
)
    requires
        forall|d: DeclarationView| first.contains(d) <==> second.contains(d),
        merged(a, build_id, first, ovs),
        merged(b, build_id, second, ovs),
    ensures
        a == b,
{
    assert forall|f: ResolvedFlagView| a.flags.contains(f) <==> b.flags.contains(f) by {
        if a.flags.contains(f) {
            let p = choose|p: int| 0 <= p < a.flags.len() && a.flags[p] == f;
            let i = choose|i: int|
                0 <= i < first.len() && #[trigger] a.flags[p] == resolve(#[trigger] first[i], ovs);
            assert(first.contains(first[i]));
            let m = choose|m: int| 0 <= m < second.len() && second[m] == first[i];
            assert(b.flags.contains(resolve(second[m], ovs)));
        }
        if b.flags.contains(f) {
            let p = choose|p: int| 0 <= p < b.flags.len() && b.flags[p] == f;
            let i = choose|i: int|
                0 <= i < second.len() && #[trigger] b.flags[p] == resolve(
                    #[trigger] second[i],
                    ovs,
                );
            assert(second.contains(second[i]));
            let m = choose|m: int| 0 <= m < first.len() && first[m] == second[i];
            assert(a.flags.contains(resolve(first[m], ovs)));
        }
    }
    lemma_sorted_flags_unique(a.flags, b.flags);
}

/// The cache does not depend on the order of the declarations: merging the
/// same declarations in two orders, with the same overrides in the same
/// order, gives the same cache and so the same bytes.
pub proof fn lemma_merge_in_any_order(
    build_id: u32,
    first: Seq<DeclarationView>,
    second: Seq<DeclarationView>,
    ovs: Seq<OverrideView>,
    a: CacheView,
    b: CacheView,
)
    requires
        first.to_multiset() == second.to_multiset(),
        merged(a, build_id, first, ovs),
        merged(b, build_id, second, ovs),
    ensures
        a == b,
        encode(a) == encode(b),
{
    assert forall|d: DeclarationView| first.contains(d) <==> second.contains(d) by {
        vstd::seq_lib::to_multiset_contains(first, d);
        vstd::seq_lib::to_multiset_contains(second, d);
    }
    lemma_merge_of_same_items(build_id, first, second, ovs, a, b);
}

/// What a merge gives is fixed by its inputs: two outcomes of one merge are
/// the same.
pub proof fn lemma_merge_deterministic(
    build_id: u32,
    decls: Seq<DeclarationView>,
    ovs: Seq<OverrideView>,
    r1: Result<CacheView, MergeErrorView>,
    r2: Result<CacheView, MergeErrorView>,
)
    requires
        merge_outcome(build_id, decls, ovs, r1),
        merge_outcome(build_id, decls, ovs, r2),
    ensures
        r1 == r2,
{
    match (r1, r2) {
        (Ok(a), Ok(b)) => {
            lemma_merge_in_any_order(build_id, decls, decls, ovs, a, b);
        },
        (Err(e1), Err(e2)) => {
            if distinct(decls) {
                let k = choose|k: int| first_refused(decls, ovs, k);
                lemma_first_fault(decls, ovs, k, e1);
                lemma_first_fault(decls, ovs, k, e2);
            } else {
                let (i, j) = choose|i: int, j: int| first_repeat(decls, i, j);
                lemma_first_repeat(decls, ovs, i, j, e1);
                lemma_first_repeat(decls, ovs, i, j, e2);
            }
        },
        _ => {},
    }
}

// The error of a merge whose first fault is the repeat of `i` by `j`.
proof fn lemma_first_repeat(
    decls: Seq<DeclarationView>,
    ovs: Seq<OverrideView>,
    i: int,
    j: int,
    e: MergeErrorView,
)
    requires
        first_repeat(decls, i, j),
        rejected(decls, ovs, e),
    ensures
        e == (MergeErrorView::DuplicateDeclaration {
            key: decls[j].key,
            first_source: decls[i].source,
            second_source: decls[j].source,
        }),
{
    assert(decls[i].key == decls[j].key);
    assert(!distinct(decls));
    let (i2, j2) = choose|i2: int, j2: int|
        #![trigger decls[i2], decls[j2]]
        first_repeat(decls, i2, j2) && e->DuplicateDeclaration_key == decls[j2].key
            && e->first_source == decls[i2].source && e->second_source == decls[j2].source;
    if j < j2 {
        assert(decls.take(j2)[i].key != decls.take(j2)[j].key);
    }
    if j2 < j {
        assert(decls.take(j)[i2].key != decls.take(j)[j2].key);
    }
    if i < i2 {
        assert(decls.take(j)[i].key != decls.take(j)[i2].key);
    }
    if i2 < i {
        assert(decls.take(j)[i2].key != decls.take(j)[i].key);
    }
}

// The error of a merge whose first fault is override `k`.
proof fn lemma_first_fault(
    decls: Seq<DeclarationView>,
    ovs: Seq<OverrideView>,
    k: int,
    e: MergeErrorView,
)
    requires
        distinct(decls),
        first_refused(decls, ovs, k),
        rejected(decls, ovs, e),
    ensures
        e == if unknown(decls, ovs[k].key) {
            MergeErrorView::UnknownFlagOverride { key: ovs[k].key, source: ovs[k].source }
        } else {
            MergeErrorView::PermissionDenied { key: ovs[k].key, source: ovs[k].source }
        },
{
    if e is DuplicateDeclaration {
        let (i, j) = choose|i: int, j: int| #![trigger decls[i], decls[j]] first_repeat(decls, i, j);
        assert(decls[i].key == decls[j].key);
    } else {
        assert forall|m: int| first_refused(decls, ovs, m) implies m == k by {
            if k < m {
                assert(!refused(decls, ovs.take(m)[k].key));
            }
            if m < k {
                assert(!refused(decls, ovs.take(k)[m].key));
            }
        }
    }
}

/// Two declarations of one key make the merge fail with
/// `DuplicateDeclaration`, whatever else the inputs hold. Where `j` is the
/// first declaration to repeat a key, the error names that key, the source of
/// the earlier declaration `i` and the source of `j`.
pub proof fn lemma_duplicate_declaration_fails(
    build_id: u32,
    decls: Seq<DeclarationView>,
    ovs: Seq<OverrideView>,
    i: int,
    j: int,
    r: Result<CacheView, MergeErrorView>,
)
    requires
        0 <= i < j < decls.len(),
        decls[i].key == decls[j].key,
        merge_outcome(build_id, decls, ovs, r),
    ensures
        r is Err,
        r->Err_0 is DuplicateDeclaration,
        first_repeat(decls, i, j) ==> r == Err::<CacheView, MergeErrorView>(
            MergeErrorView::DuplicateDeclaration {
                key: decls[j].key,
                first_source: decls[i].source,
                second_source: decls[j].source,
            },
        ),
{
    assert(!distinct(decls));
    if first_repeat(decls, i, j) {
        lemma_first_repeat(decls, ovs, i, j, r->Err_0);
    }
}

/// An override of a key that nothing declares makes the merge fail. Where it
/// is the first fault (no key is declared twice and the overrides before it
/// are accepted), the error is `UnknownFlagOverride` with the override's key
/// and source.
pub proof fn lemma_unknown_override_fails(
    build_id: u32,
    decls: Seq<DeclarationView>,
    ovs: Seq<OverrideView>,
    k: int,
    r: Result<CacheView, MergeErrorView>,
)
    requires
        0 <= k < ovs.len(),
        unknown(decls, ovs[k].key),
        merge_outcome(build_id, decls, ovs, r),
    ensures
        r is Err,
        distinct(decls) && accepted(decls, ovs.take(k)) ==> r == Err::<CacheView, MergeErrorView>(
            MergeErrorView::UnknownFlagOverride { key: ovs[k].key, source: ovs[k].source },
        ),
{
    assert(refused(decls, ovs[k].key));
    if distinct(decls) && accepted(decls, ovs.take(k)) {
        lemma_first_fault(decls, ovs, k, r->Err_0);
    }
}

/// An override of a read-only flag makes the merge fail. Where it is the
/// first fault (no key is declared twice and the overrides before it are
/// accepted), the error is `PermissionDenied` with the override's key and
/// source.
pub proof fn lemma_read_only_override_fails(
    build_id: u32,
    decls: Seq<DeclarationView>,
    ovs: Seq<OverrideView>,
    i: int,
    k: int,
    r: Result<CacheView, MergeErrorView>,
)
    requires
        0 <= i < decls.len(),
        0 <= k < ovs.len(),
        decls[i].key == ovs[k].key,
        decls[i].permission == Permission::ReadOnly,
        merge_outcome(build_id, decls, ovs, r),
    ensures
        r is Err,
        distinct(decls) && accepted(decls, ovs.take(k)) ==> r == Err::<CacheView, MergeErrorView>(
            MergeErrorView::PermissionDenied { key: ovs[k].key, source: ovs[k].source },
        ),
{
    assert(denied(decls, ovs[k].key));
    assert(refused(decls, ovs[k].key));
    if distinct(decls) && accepted(decls, ovs.take(k)) {
        lemma_first_fault(decls, ovs, k, r->Err_0);
    }
}

/// The last override of a flag wins: where override `k` names the key of a
/// declaration and no later override does, the resolved flag has the state
/// that override `k` asks for, and says that an override set it.
pub proof fn lemma_last_override_wins(d: DeclarationView, ovs: Seq<OverrideView>, k: int)
    requires
        0 <= k < ovs.len(),
        ovs[k].key == d.key,
        forall|m: int| k < m < ovs.len() ==> (#[trigger] ovs[m]).key != d.key,
    ensures
        resolve(d, ovs).state == ovs[k].state,
        resolve(d, ovs).resolved_by == ResolvedBy::Override,
    decreases ovs.len(),
{
    if k < ovs.len() - 1 {
        let shorter = ovs.drop_last();
        assert(shorter[k] == ovs[k]);
        assert forall|m: int| k < m < shorter.len() implies (#[trigger] shorter[m]).key
            != d.key by {
            assert(shorter[m] == ovs[m]);
        }
        lemma_last_override_wins(d, shorter, k);
    }
}

/// A flag that no override names keeps its declared default.
pub proof fn lemma_default_without_override(d: DeclarationView, ovs: Seq<OverrideView>)
    requires
        forall|m: int| 0 <= m < ovs.len() ==> (#[trigger] ovs[m]).key != d.key,
    ensures
        resolve(d, ovs).state == d.default_state,
        resolve(d, ovs).resolved_by == ResolvedBy::Default,
    decreases ovs.len(),
{
    if ovs.len() > 0 {
        let shorter = ovs.drop_last();
        assert forall|m: int| 0 <= m < shorter.len() implies (#[trigger] shorter[m]).key
            != d.key by {
            assert(shorter[m] == ovs[m]);
        }
        lemma_default_without_override(d, shorter);
    }
}

} // verus!
