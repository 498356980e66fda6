//! The data model: a flag's identity, its declaration, an override of its
//! value, and the resolved flag that a cache stores.
//!
//! Each executable type has a view that holds the same data as mathematical
//! sequences; contracts are stated over the views.

use crate::text::{
    bytes_lt, check_identifier, compare_bytes, copy_bytes, is_identifier,
    lemma_bytes_lt_asymmetric, lemma_bytes_lt_irreflexive, lemma_bytes_lt_transitive, Rel,
};
use vstd::prelude::*;

verus! {

/// The state of a flag.
#[derive(Clone, Copy, Debug, PartialEq, Eq, Structural)]
pub enum FlagState {
    Enabled,
    Disabled,
}

/// Whether a build may override a flag's default state.
#[derive(Clone, Copy, Debug, PartialEq, Eq, Structural)]
pub enum Permission {
    ReadOnly,
    ReadWrite,
}

/// Where a resolved flag's state came from.
#[derive(Clone, Copy, Debug, PartialEq, Eq, Structural)]
pub enum ResolvedBy {
    /// The declaration's default state.
    Default,
    /// The last override that named the flag.
    Override,
}

/// Whether a byte string is short enough for its length to be written as an
/// unsigned 64-bit number. Every string that fits in memory is.
pub open spec fn fits(s: Seq<u8>) -> bool {
    s.len() <= u64::MAX
}

/// The identity of a flag, as mathematical data.
pub struct FlagKeyView {
    pub namespace: Seq<u8>,
    pub name: Seq<u8>,
}

impl FlagKeyView {
    /// Namespace and name are both identifiers.
    pub open spec fn valid(self) -> bool {
        is_identifier(self.namespace) && is_identifier(self.name)
    }

    /// The key is valid, and short enough to be written down.
    pub open spec fn wf(self) -> bool {
        self.valid() && fits(self.namespace) && fits(self.name)
    }

    /// The strict order on keys: by namespace, then by name, each compared
    /// lexicographically as bytes.
    pub open spec fn lt(self, other: FlagKeyView) -> bool {
        bytes_lt(self.namespace, other.namespace) || (self.namespace == other.namespace
            && bytes_lt(self.name, other.name))
    }
}

/// No key sorts before itself.
pub proof fn lemma_key_lt_irreflexive(a: FlagKeyView)
    ensures
        !a.lt(a),
{
    lemma_bytes_lt_irreflexive(a.namespace);
    lemma_bytes_lt_irreflexive(a.name);
}

/// The order on keys is transitive.
pub proof fn lemma_key_lt_transitive(a: FlagKeyView, b: FlagKeyView, c: FlagKeyView)
    requires
        a.lt(b),
        b.lt(c),
    ensures
        a.lt(c),
{
    if bytes_lt(a.namespace, b.namespace) && bytes_lt(b.namespace, c.namespace) {
        lemma_bytes_lt_transitive(a.namespace, b.namespace, c.namespace);
    } else if a.namespace == b.namespace && b.namespace == c.namespace {
        lemma_bytes_lt_transitive(a.name, b.name, c.name);
    }
}

/// Of two keys at most one sorts before the other, and then they differ.
pub proof fn lemma_key_lt_asymmetric(a: FlagKeyView, b: FlagKeyView)
    requires
        a.lt(b),
    ensures
        !b.lt(a),
        a != b,
{
    if b.lt(a) {
        lemma_key_lt_transitive(a, b, a);
    }
    lemma_key_lt_irreflexive(a);
}

/// The identity of a flag: a namespace and a name, both identifiers.
///
/// A key can only be made by [`FlagKey::new`], which checks both parts, so
/// every key is valid.
#[derive(Debug, PartialEq, Eq)]
pub struct FlagKey {
    namespace: Vec<u8>,
    name: Vec<u8>,
}

impl View for FlagKey {
    type V = FlagKeyView;

    closed spec fn view(&self) -> FlagKeyView {
        FlagKeyView { namespace: self.namespace@, name: self.name@ }
    }
}

impl FlagKey {
    #[verifier::type_invariant]
    spec fn well_formed(self) -> bool {
        self@.wf()
    }

    /// Makes a key, or nothing where either part is not an identifier.
    pub fn new(namespace: Vec<u8>, name: Vec<u8>) -> (key: Option<FlagKey>)
        ensures
            key is Some <==> is_identifier(namespace@) && is_identifier(name@),
            key matches Some(k) ==> k@ == (FlagKeyView { namespace: namespace@, name: name@ })
                && k@.wf(),
    {
        if check_identifier(namespace.as_slice()) && check_identifier(name.as_slice()) {
            proof {
                assert(namespace@.len() == namespace.len() && name@.len() == name.len());
            }
            Some(FlagKey { namespace, name })
        } else {
            None
        }
    }

    /// The namespace. Every key that exists is valid, which the contract
    /// passes on.
    pub fn namespace(&self) -> (bytes: &[u8])
        ensures
            bytes@ == self@.namespace,
            self@.wf(),
    {
        proof {
            use_type_invariant(self);
        }
        self.namespace.as_slice()
    }

    /// The name.
    pub fn name(&self) -> (bytes: &[u8])
        ensures
            bytes@ == self@.name,
            self@.wf(),
    {
        proof {
            use_type_invariant(self);
        }
        self.name.as_slice()
    }

    /// Compares two keys in the order of [`FlagKeyView::lt`].
    pub fn compare(&self, other: &FlagKey) -> (r: Rel)
        ensures
            r is Less <==> self@.lt(other@),
            r is Equal <==> self@ == other@,
            r is Greater <==> other@.lt(self@),
    {
        let by_namespace = compare_bytes(self.namespace.as_slice(), other.namespace.as_slice());
        let r = match by_namespace {
            Rel::Equal => compare_bytes(self.name.as_slice(), other.name.as_slice()),
            _ => by_namespace,
        };
        proof {
            if self@.lt(other@) {
                lemma_key_lt_asymmetric(self@, other@);
            }
            if other@.lt(self@) {
                lemma_key_lt_asymmetric(other@, self@);
            }
            if bytes_lt(self@.namespace, other@.namespace) {
                lemma_bytes_lt_asymmetric(self@.namespace, other@.namespace);
            }
            if bytes_lt(other@.namespace, self@.namespace) {
                lemma_bytes_lt_asymmetric(other@.namespace, self@.namespace);
            }
        }
        r
    }

}

impl Clone for FlagKey {
    fn clone(&self) -> (key: FlagKey)
        ensures
            key@ == self@,
            key@.wf(),
    {
        proof {
            use_type_invariant(self);
        }
        FlagKey {
            namespace: copy_bytes(self.namespace.as_slice()),
            name: copy_bytes(self.name.as_slice()),
        }
    }
}

/// A declaration, as mathematical data.
pub struct DeclarationView {
    pub key: FlagKeyView,
    pub description: Seq<u8>,
    pub tracking: Seq<u8>,
    pub default_state: FlagState,
    pub permission: Permission,
    pub source: Seq<u8>,
}

/// The static definition of one flag, tagged with the source it was read
/// from.
#[derive(Debug, PartialEq, Eq)]
pub struct Declaration {
    pub key: FlagKey,
    pub description: Vec<u8>,
    /// A reference into an issue tracker.
    pub tracking: Vec<u8>,
    pub default_state: FlagState,
    pub permission: Permission,
    /// The label of the source that held this declaration.
    pub source: Vec<u8>,
}

impl View for Declaration {
    type V = DeclarationView;

    open spec fn view(&self) -> DeclarationView {
        DeclarationView {
            key: self.key@,
            description: self.description@,
            tracking: self.tracking@,
            default_state: self.default_state,
            permission: self.permission,
            source: self.source@,
        }
    }
}

impl Clone for Declaration {
    fn clone(&self) -> (d: Declaration)
        ensures
            d@ == self@,
    {
        Declaration {
            key: self.key.clone(),
            description: copy_bytes(self.description.as_slice()),
            tracking: copy_bytes(self.tracking.as_slice()),
            default_state: self.default_state,
            permission: self.permission,
            source: copy_bytes(self.source.as_slice()),
        }
    }
}

/// An override, as mathematical data.
pub struct OverrideView {
    pub key: FlagKeyView,
    pub state: FlagState,
    pub source: Seq<u8>,
}

/// A request to give one declared flag a state in this build, tagged with the
/// source it was read from.
#[derive(Debug, PartialEq, Eq)]
pub struct Override {
    pub key: FlagKey,
    pub state: FlagState,
    /// The label of the source that held this override.
    pub source: Vec<u8>,
}

impl View for Override {
    type V = OverrideView;

    open spec fn view(&self) -> OverrideView {
        OverrideView { key: self.key@, state: self.state, source: self.source@ }
    }
}

impl Clone for Override {
    fn clone(&self) -> (o: Override)
        ensures
            o@ == self@,
    {
        Override {
            key: self.key.clone(),
            state: self.state,
            source: copy_bytes(self.source.as_slice()),
        }
    }
}

/// A resolved flag, as mathematical data.
pub struct ResolvedFlagView {
    pub key: FlagKeyView,
    pub description: Seq<u8>,
    pub tracking: Seq<u8>,
    pub permission: Permission,
    pub state: FlagState,
    pub resolved_by: ResolvedBy,
}

/// One flag of a cache: what its declaration said of it, and the state it has
/// in this build.
#[derive(Debug, PartialEq, Eq)]
pub struct ResolvedFlag {
    pub key: FlagKey,
    pub description: Vec<u8>,
    pub tracking: Vec<u8>,
    pub permission: Permission,
    pub state: FlagState,
    pub resolved_by: ResolvedBy,
}

impl View for ResolvedFlag {
    type V = ResolvedFlagView;

    open spec fn view(&self) -> ResolvedFlagView {
        ResolvedFlagView {
            key: self.key@,
            description: self.description@,
            tracking: self.tracking@,
            permission: self.permission,
            state: self.state,
            resolved_by: self.resolved_by,
        }
    }
}

impl Clone for ResolvedFlag {
    fn clone(&self) -> (f: ResolvedFlag)
        ensures
            f@ == self@,
    {
        ResolvedFlag {
            key: self.key.clone(),
            description: copy_bytes(self.description.as_slice()),
            tracking: copy_bytes(self.tracking.as_slice()),
            permission: self.permission,
            state: self.state,
            resolved_by: self.resolved_by,
        }
    }
}

/// The views of a sequence of declarations.
pub open spec fn declaration_views(s: Seq<Declaration>) -> Seq<DeclarationView> {
    s.map_values(|d: Declaration| d@)
}

/// The views of a sequence of overrides.
pub open spec fn override_views(s: Seq<Override>) -> Seq<OverrideView> {
    s.map_values(|o: Override| o@)
}

/// The views of a sequence of resolved flags.
pub open spec fn flag_views(s: Seq<ResolvedFlag>) -> Seq<ResolvedFlagView> {
    s.map_values(|f: ResolvedFlag| f@)
}

impl ResolvedFlagView {
    /// The key is well formed and the other text fields are short enough
    /// to be written down.
    pub open spec fn wf(self) -> bool {
        &&& self.key.wf()
        &&& fits(self.description)
        &&& fits(self.tracking)
    }
}

/// Flags in strictly ascending order of their keys. No key occurs twice in
/// such a sequence.
pub open spec fn sorted_by_key(flags: Seq<ResolvedFlagView>) -> bool {
    forall|i: int, j: int| 0 <= i < j < flags.len() ==> flags[i].key.lt(flags[j].key)
}

/// No key occurs twice among flags in strictly ascending order: there is
/// exactly one flag for each key.
pub proof fn lemma_sorted_keys_differ(flags: Seq<ResolvedFlagView>, i: int, j: int)
    requires
        sorted_by_key(flags),
        0 <= i < flags.len(),
        0 <= j < flags.len(),
        i != j,
    ensures
        flags[i].key != flags[j].key,
{
    if i < j {
        lemma_key_lt_asymmetric(flags[i].key, flags[j].key);
    } else {
        lemma_key_lt_asymmetric(flags[j].key, flags[i].key);
    }
}

/// A cache, as mathematical data.
pub struct CacheView {
    pub build_id: u32,
    pub flags: Seq<ResolvedFlagView>,
}

impl CacheView {
    /// What holds of every cache: each flag is well formed, the flags stand in
    /// strictly ascending order of their keys, and their number fits.
    pub open spec fn wf(self) -> bool {
        &&& self.flags.len() <= u64::MAX
        &&& forall|i: int| 0 <= i < self.flags.len() ==> (#[trigger] self.flags[i]).wf()
        &&& sorted_by_key(self.flags)
    }
}

/// Two sequences of flags in strictly ascending key order that hold the same
/// flags are the same sequence.
pub proof fn lemma_sorted_flags_unique(a: Seq<ResolvedFlagView>, b: Seq<ResolvedFlagView>)
    requires
        sorted_by_key(a),
        sorted_by_key(b),
        forall|f: ResolvedFlagView| a.contains(f) <==> b.contains(f),
    ensures
        a == b,
    decreases a.len(),
{
    if a.len() == 0 {
        if b.len() > 0 {
            assert(b.contains(b[0]));
        }
        assert(a =~= b);
    } else {
        assert(a.contains(a[0]));
        assert(b.contains(a[0]));
        let q = choose|q: int| 0 <= q < b.len() && b[q] == a[0];
        assert(b.contains(b[0]));
        let p = choose|p: int| 0 <= p < a.len() && a[p] == b[0];
        if p > 0 && q > 0 {
            lemma_key_lt_asymmetric(a[0].key, a[p].key);
        }
        assert(a[0] == b[0]);
        let ta = a.skip(1);
        let tb = b.skip(1);
        assert forall|f: ResolvedFlagView| ta.contains(f) <==> tb.contains(f) by {
            if ta.contains(f) {
                let i = choose|i: int| 0 <= i < ta.len() && ta[i] == f;
                assert(a[i + 1] == f);
                assert(a.contains(f));
                let j = choose|j: int| 0 <= j < b.len() && b[j] == f;
                if j == 0 {
                    lemma_key_lt_irreflexive(a[0].key);
                }
                assert(tb[j - 1] == f);
            }
            if tb.contains(f) {
                let i = choose|i: int| 0 <= i < tb.len() && tb[i] == f;
                assert(b[i + 1] == f);
                assert(b.contains(f));
                let j = choose|j: int| 0 <= j < a.len() && a[j] == f;
                if j == 0 {
                    lemma_key_lt_irreflexive(b[0].key);
                }
                assert(ta[j - 1] == f);
            }
        }
        assert(sorted_by_key(ta)) by {
            assert forall|i: int, j: int| 0 <= i < j < ta.len() implies ta[i].key.lt(ta[j].key) by {
                assert(ta[i] == a[i + 1] && ta[j] == a[j + 1]);
            }
        }
        assert(sorted_by_key(tb)) by {
            assert forall|i: int, j: int| 0 <= i < j < tb.len() implies tb[i].key.lt(tb[j].key) by {
                assert(tb[i] == b[i + 1] && tb[j] == b[j + 1]);
            }
        }
        lemma_sorted_flags_unique(ta, tb);
        assert(a =~= seq![a[0]] + ta);
        assert(b =~= seq![b[0]] + tb);
    }
}

} // verus!
