//! The binary format of a cache.
//!
//! ```text
//! cache  = version build-id count flag*
//! flag   = text text text text tag tag tag
//! text   = length byte*
//! ```
//!
//! `version` and `build-id` are unsigned 32-bit numbers, `count` and `length`
//! unsigned 64-bit numbers, all little-endian. `count` is the number of flags
//! that follow, `length` the number of bytes that follow. The four texts of a
//! flag are its namespace, name, description and tracking reference; its
//! three tags are its permission, its state and where the state came from,
//! one byte each. Nothing follows the last flag.

use crate::model::{
    fits, CacheView, FlagKey, FlagKeyView, FlagState, Permission, ResolvedBy, ResolvedFlag,
    ResolvedFlagView,
};
use crate::text::{append_bytes, copy_bytes};
use vstd::bytes::{
    lemma_auto_spec_u64_to_from_le_bytes, spec_u32_to_le_bytes, spec_u64_from_le_bytes,
    spec_u64_to_le_bytes, u64_from_le_bytes, u64_to_le_bytes,
};
use vstd::prelude::*;
use vstd::slice::slice_subrange;

verus! {

/// The version of the format that this library writes and reads.
pub const FORMAT_VERSION: u32 = 1;

/// The byte that stands for a permission.
pub open spec fn permission_tag(p: Permission) -> u8 {
    match p {
        Permission::ReadOnly => 1,
        Permission::ReadWrite => 2,
    }
}

/// The byte that stands for a state.
pub open spec fn state_tag(s: FlagState) -> u8 {
    match s {
        FlagState::Enabled => 1,
        FlagState::Disabled => 2,
    }
}

/// The byte that stands for the origin of a state.
pub open spec fn resolved_by_tag(r: ResolvedBy) -> u8 {
    match r {
        ResolvedBy::Default => 1,
        ResolvedBy::Override => 2,
    }
}

/// The permission that a byte stands for, if any.
pub open spec fn permission_of(t: u8) -> Option<Permission> {
    if t == 1 {
        Some(Permission::ReadOnly)
    } else if t == 2 {
        Some(Permission::ReadWrite)
    } else {
        None
    }
}

/// The state that a byte stands for, if any.
pub open spec fn state_of(t: u8) -> Option<FlagState> {
    if t == 1 {
        Some(FlagState::Enabled)
    } else if t == 2 {
        Some(FlagState::Disabled)
    } else {
        None
    }
}

/// The origin that a byte stands for, if any.
pub open spec fn resolved_by_of(t: u8) -> Option<ResolvedBy> {
    if t == 1 {
        Some(ResolvedBy::Default)
    } else if t == 2 {
        Some(ResolvedBy::Override)
    } else {
        None
    }
}

/// A text field: its length, then its bytes.
pub open spec fn encode_text(s: Seq<u8>) -> Seq<u8> {
    spec_u64_to_le_bytes(s.len() as u64) + s
}

/// The three tags of a flag.
pub open spec fn encode_tags(f: ResolvedFlagView) -> Seq<u8> {
    seq![permission_tag(f.permission), state_tag(f.state), resolved_by_tag(f.resolved_by)]
}

/// One flag.
pub open spec fn encode_flag(f: ResolvedFlagView) -> Seq<u8> {
    encode_text(f.key.namespace) + encode_text(f.key.name) + encode_text(f.description)
        + encode_text(f.tracking) + encode_tags(f)
}

/// Flags one after another, in their order.
pub open spec fn encode_flags(flags: Seq<ResolvedFlagView>) -> Seq<u8>
    decreases flags.len(),
{
    if flags.len() == 0 {
        Seq::empty()
    } else {
        encode_flag(flags[0]) + encode_flags(flags.skip(1))
    }
}

/// What stands before the flags: version, build identifier, number of flags.
pub open spec fn encode_header(build_id: u32, count: nat) -> Seq<u8> {
    spec_u32_to_le_bytes(FORMAT_VERSION) + spec_u32_to_le_bytes(build_id) + spec_u64_to_le_bytes(
        count as u64,
    )
}

/// The bytes of a cache.
pub open spec fn encode(c: CacheView) -> Seq<u8> {
    encode_header(c.build_id, c.flags.len()) + encode_flags(c.flags)
}

/// Appending a flag appends its bytes.
pub proof fn lemma_encode_flags_push(flags: Seq<ResolvedFlagView>, f: ResolvedFlagView)
    ensures
        encode_flags(flags.push(f)) == encode_flags(flags) + encode_flag(f),
    decreases flags.len(),
{
    let all = flags.push(f);
    if flags.len() == 0 {
        assert(all.skip(1) =~= Seq::<ResolvedFlagView>::empty());
        assert(encode_flags(all.skip(1)) =~= Seq::<u8>::empty());
        assert(encode_flags(flags) =~= Seq::<u8>::empty());
        assert(encode_flags(all) =~= encode_flags(flags) + encode_flag(f));
    } else {
        assert(all.skip(1) =~= flags.skip(1).push(f));
        assert(all[0] == flags[0]);
        lemma_encode_flags_push(flags.skip(1), f);
        assert(encode_flags(all) =~= encode_flags(flags) + encode_flag(f));
    }
}

// Reading, as mathematics: each `take_*` reads one item from the front of `b`
// and gives it with the bytes that are left, or nothing where `b` does not
// start with such an item.
pub(crate) open spec fn taken<T>(read: Option<(T, Seq<u8>)>) -> T {
    match read {
        Some((item, _)) => item,
        None => arbitrary(),
    }
}

pub(crate) open spec fn remainder<T>(read: Option<(T, Seq<u8>)>) -> Seq<u8> {
    match read {
        Some((_, rest)) => rest,
        None => Seq::empty(),
    }
}

#[verifier::opaque]
pub(crate) open spec fn take_text(b: Seq<u8>) -> Option<(Seq<u8>, Seq<u8>)> {
    if b.len() < 8 {
        None
    } else {
        let n = spec_u64_from_le_bytes(b.take(8));
        if n <= b.len() - 8 {
            Some((b.subrange(8, 8 + n), b.skip(8 + n)))
        } else {
            None
        }
    }
}

#[verifier::opaque]
pub(crate) open spec fn take_flag(b: Seq<u8>) -> Option<(ResolvedFlagView, Seq<u8>)> {
    let namespace = take_text(b);
    let name = take_text(remainder(namespace));
    let description = take_text(remainder(name));
    let tracking = take_text(remainder(description));
    let tags = remainder(tracking);
    let key = FlagKeyView { namespace: taken(namespace), name: taken(name) };
    if namespace is Some && name is Some && description is Some && tracking is Some && tags.len()
        >= 3 && permission_of(tags[0]) is Some && state_of(tags[1]) is Some && resolved_by_of(
        tags[2],
    ) is Some && key.valid() {
        Some(
            (
                ResolvedFlagView {
                    key,
                    description: taken(description),
                    tracking: taken(tracking),
                    permission: permission_of(tags[0])->0,
                    state: state_of(tags[1])->0,
                    resolved_by: resolved_by_of(tags[2])->0,
                },
                tags.skip(3),
            ),
        )
    } else {
        None
    }
}

pub(crate) open spec fn take_flags(b: Seq<u8>, n: nat) -> Option<(Seq<ResolvedFlagView>, Seq<u8>)>
    decreases n,
{
    if n == 0 {
        Some((Seq::empty(), b))
    } else {
        match take_flag(b) {
            Some((f, rest)) => match take_flags(rest, (n - 1) as nat) {
                Some((flags, rest)) => Some((seq![f] + flags, rest)),
                None => None,
            },
            None => None,
        }
    }
}

/// Reading what was written gives it back, whatever follows.
pub(crate) proof fn lemma_take_text(s: Seq<u8>, rest: Seq<u8>)
    requires
        fits(s),
    ensures
        take_text(encode_text(s) + rest) == Some((s, rest)),
{
    reveal(take_text);
    lemma_auto_spec_u64_to_from_le_bytes();
    let b = encode_text(s) + rest;
    let n = s.len() as u64;
    assert(b.take(8) =~= spec_u64_to_le_bytes(n));
    assert(b.subrange(8, 8 + n) =~= s);
    assert(b.skip(8 + n) =~= rest);
}

pub(crate) proof fn lemma_take_flag(f: ResolvedFlagView, rest: Seq<u8>)
    requires
        f.wf(),
    ensures
        take_flag(encode_flag(f) + rest) == Some((f, rest)),
{
    reveal(take_flag);
    let tags = encode_tags(f) + rest;
    let r4 = encode_text(f.tracking) + tags;
    let r3 = encode_text(f.description) + r4;
    let r2 = encode_text(f.key.name) + r3;
    let r1 = encode_text(f.key.namespace) + r2;
    assert(encode_flag(f) + rest =~= r1);
    lemma_take_text(f.key.namespace, r2);
    lemma_take_text(f.key.name, r3);
    lemma_take_text(f.description, r4);
    lemma_take_text(f.tracking, tags);
    assert(tags.skip(3) =~= rest);
    assert(tags[0] == permission_tag(f.permission));
    assert(tags[1] == state_tag(f.state));
    assert(tags[2] == resolved_by_tag(f.resolved_by));
    let got = taken(take_flag(r1));
    assert(got.key == f.key);
}

pub(crate) proof fn lemma_take_flags(flags: Seq<ResolvedFlagView>, rest: Seq<u8>)
    requires
        forall|i: int| 0 <= i < flags.len() ==> (#[trigger] flags[i]).wf(),
    ensures
        take_flags(encode_flags(flags) + rest, flags.len()) == Some((flags, rest)),
    decreases flags.len(),
{
    if flags.len() == 0 {
        assert(encode_flags(flags) + rest =~= rest);
        assert(flags =~= Seq::empty());
    } else {
        let tail = flags.skip(1);
        let after = encode_flags(tail) + rest;
        assert(encode_flags(flags) + rest =~= encode_flag(flags[0]) + after);
        lemma_take_flag(flags[0], after);
        assert forall|i: int| 0 <= i < tail.len() implies (#[trigger] tail[i]).wf() by {
            assert(tail[i] == flags[i + 1]);
        }
        lemma_take_flags(tail, rest);
        assert(seq![flags[0]] + tail =~= flags);
    }
}

/// What was read is what stood there.
pub(crate) proof fn lemma_take_text_sound(b: Seq<u8>, s: Seq<u8>, rest: Seq<u8>)
    requires
        take_text(b) == Some((s, rest)),
    ensures
        b == encode_text(s) + rest,
        fits(s),
{
    reveal(take_text);
    lemma_auto_spec_u64_to_from_le_bytes();
    let n = spec_u64_from_le_bytes(b.take(8));
    assert(s.len() == n);
    assert(spec_u64_to_le_bytes(n) == b.take(8));
    assert(b =~= encode_text(s) + rest);
}

pub(crate) proof fn lemma_take_flag_sound(b: Seq<u8>, f: ResolvedFlagView, rest: Seq<u8>)
    requires
        take_flag(b) == Some((f, rest)),
    ensures
        b == encode_flag(f) + rest,
        f.wf(),
{
    reveal(take_flag);
    let namespace = take_text(b);
    let name = take_text(remainder(namespace));
    let description = take_text(remainder(name));
    let tracking = take_text(remainder(description));
    let tags = remainder(tracking);
    lemma_take_text_sound(b, taken(namespace), remainder(namespace));
    lemma_take_text_sound(remainder(namespace), taken(name), remainder(name));
    lemma_take_text_sound(remainder(name), taken(description), remainder(description));
    lemma_take_text_sound(remainder(description), taken(tracking), tags);
    assert(tags =~= encode_tags(f) + rest);
    let e1 = encode_text(f.key.namespace);
    let e2 = encode_text(f.key.name);
    let e3 = encode_text(f.description);
    let e4 = encode_text(f.tracking);
    assert(b == e1 + (e2 + (e3 + (e4 + (encode_tags(f) + rest)))));
    assert(e1 + (e2 + (e3 + (e4 + (encode_tags(f) + rest)))) =~= encode_flag(f) + rest);
}

pub(crate) proof fn lemma_take_flags_sound(
    b: Seq<u8>,
    n: nat,
    flags: Seq<ResolvedFlagView>,
    rest: Seq<u8>,
)
    requires
        take_flags(b, n) == Some((flags, rest)),
    ensures
        b == encode_flags(flags) + rest,
        flags.len() == n,
        forall|i: int| 0 <= i < n ==> (#[trigger] flags[i]).wf(),
    decreases n,
{
    if n == 0 {
        assert(encode_flags(flags) =~= Seq::<u8>::empty());
        assert(b =~= encode_flags(flags) + rest);
    } else {
        let f = taken(take_flag(b));
        let after = remainder(take_flag(b));
        let tail = taken(take_flags(after, (n - 1) as nat));
        lemma_take_flag_sound(b, f, after);
        lemma_take_flags_sound(after, (n - 1) as nat, tail, rest);
        assert(flags == seq![f] + tail);
        assert(flags.skip(1) =~= tail);
        assert(flags[0] == f);
        assert(encode_flags(flags) == encode_flag(f) + encode_flags(tail));
        assert(b =~= encode_flags(flags) + rest);
        assert forall|i: int| 0 <= i < n implies (#[trigger] flags[i]).wf() by {
            if i > 0 {
                assert(flags[i] == tail[i - 1]);
            }
        }
    }
}

/// The tag of a permission.
pub fn permission_to_tag(p: Permission) -> (t: u8)
    ensures
        t == permission_tag(p),
{
    match p {
        Permission::ReadOnly => 1,
        Permission::ReadWrite => 2,
    }
}

/// The tag of a state.
pub fn state_to_tag(s: FlagState) -> (t: u8)
    ensures
        t == state_tag(s),
{
    match s {
        FlagState::Enabled => 1,
        FlagState::Disabled => 2,
    }
}

/// The tag of an origin.
pub fn resolved_by_to_tag(r: ResolvedBy) -> (t: u8)
    ensures
        t == resolved_by_tag(r),
{
    match r {
        ResolvedBy::Default => 1,
        ResolvedBy::Override => 2,
    }
}

/// The permission with tag `t`, if there is one.
pub fn permission_from_tag(t: u8) -> (p: Option<Permission>)
    ensures
        p == permission_of(t),
{
    if t == 1 {
        Some(Permission::ReadOnly)
    } else if t == 2 {
        Some(Permission::ReadWrite)
    } else {
        None
    }
}

/// The state with tag `t`, if there is one.
pub fn state_from_tag(t: u8) -> (s: Option<FlagState>)
    ensures
        s == state_of(t),
{
    if t == 1 {
        Some(FlagState::Enabled)
    } else if t == 2 {
        Some(FlagState::Disabled)
    } else {
        None
    }
}

/// The origin with tag `t`, if there is one.
pub fn resolved_by_from_tag(t: u8) -> (r: Option<ResolvedBy>)
    ensures
        r == resolved_by_of(t),
{
    if t == 1 {
        Some(ResolvedBy::Default)
    } else if t == 2 {
        Some(ResolvedBy::Override)
    } else {
        None
    }
}

/// Appends a text field to `out`.
pub(crate) fn put_text(out: &mut Vec<u8>, s: &[u8])
    ensures
        final(out)@ == old(out)@ + encode_text(s@),
{
    let length = u64_to_le_bytes(s.len() as u64);
    append_bytes(out, length.as_slice());
    append_bytes(out, s);
    proof {
        assert(out@ =~= old(out)@ + encode_text(s@));
    }
}

/// Appends a flag to `out`.
pub(crate) fn put_flag(out: &mut Vec<u8>, f: &ResolvedFlag)
    ensures
        final(out)@ == old(out)@ + encode_flag(f@),
{
    put_text(out, f.key.namespace());
    put_text(out, f.key.name());
    put_text(out, f.description.as_slice());
    put_text(out, f.tracking.as_slice());
    out.push(permission_to_tag(f.permission));
    out.push(state_to_tag(f.state));
    out.push(resolved_by_to_tag(f.resolved_by));
    proof {
        assert(out@ =~= old(out)@ + encode_flag(f@));
    }
}

/// Reads the text field that starts at `pos`, and says where the next item
/// starts.
pub(crate) fn read_text(bytes: &[u8], pos: usize) -> (read: Option<(Vec<u8>, usize)>)
    requires
        pos <= bytes.len(),
    ensures
        match read {
            Some((s, next)) => pos <= next <= bytes.len() && take_text(bytes@.skip(pos as int))
                == Some((s@, bytes@.skip(next as int))),
            None => take_text(bytes@.skip(pos as int)) is None,
        },
{
    proof {
        reveal(take_text);
    }
    let ghost b = bytes@.skip(pos as int);
    if bytes.len() - pos < 8 {
        return None;
    }
    let n = u64_from_le_bytes(slice_subrange(bytes, pos, pos + 8));
    proof {
        assert(b.take(8) =~= bytes@.subrange(pos as int, pos + 8));
    }
    if n > (bytes.len() - pos - 8) as u64 {
        return None;
    }
    let start = pos + 8;
    let next = start + n as usize;
    let s = copy_bytes(slice_subrange(bytes, start, next));
    proof {
        assert(b.subrange(8, 8 + n) =~= s@);
        assert(b.skip(8 + n) =~= bytes@.skip(next as int));
    }
    Some((s, next))
}

/// Reads the flag that starts at `pos`, and says where the next item starts.
pub(crate) fn read_flag(bytes: &[u8], pos: usize) -> (read: Option<(ResolvedFlag, usize)>)
    requires
        pos <= bytes.len(),
    ensures
        match read {
            Some((f, next)) => pos <= next <= bytes.len() && take_flag(bytes@.skip(pos as int))
                == Some((f@, bytes@.skip(next as int))),
            None => take_flag(bytes@.skip(pos as int)) is None,
        },
{
    proof {
        reveal(take_flag);
    }
    let (namespace, after_namespace) = match read_text(bytes, pos) {
        Some(read) => read,
        None => {
            return None;
        },
    };
    let (name, after_name) = match read_text(bytes, after_namespace) {
        Some(read) => read,
        None => {
            return None;
        },
    };
    let (description, after_description) = match read_text(bytes, after_name) {
        Some(read) => read,
        None => {
            return None;
        },
    };
    let (tracking, after_tracking) = match read_text(bytes, after_description) {
        Some(read) => read,
        None => {
            return None;
        },
    };
    if bytes.len() - after_tracking < 3 {
        return None;
    }
    let ghost tags = bytes@.skip(after_tracking as int);
    proof {
        assert(tags[0] == bytes@[after_tracking as int]);
        assert(tags[1] == bytes@[after_tracking + 1]);
        assert(tags[2] == bytes@[after_tracking + 2]);
        assert(tags.skip(3) =~= bytes@.skip(after_tracking + 3));
    }
    let permission = match permission_from_tag(bytes[after_tracking]) {
        Some(p) => p,
        None => {
            return None;
        },
    };
    let state = match state_from_tag(bytes[after_tracking + 1]) {
        Some(s) => s,
        None => {
            return None;
        },
    };
    let resolved_by = match resolved_by_from_tag(bytes[after_tracking + 2]) {
        Some(r) => r,
        None => {
            return None;
        },
    };
    let key = match FlagKey::new(namespace, name) {
        Some(key) => key,
        None => {
            return None;
        },
    };
    Some((ResolvedFlag { key, description, tracking, permission, state, resolved_by }, after_tracking + 3))
}

} // verus!
