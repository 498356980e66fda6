//! The cache: the resolved flags of one build, and its binary form.
//!
//! A [`Cache`] is made by merging declarations and overrides, or by reading
//! bytes that an earlier run wrote. Either way its flags stand in strictly
//! ascending order of their keys. Writing a cache and reading the bytes back
//! gives the same cache, and bytes that no cache writes are refused.

use crate::model::{
    flag_views, lemma_key_lt_transitive, sorted_by_key, CacheView, ResolvedFlag, ResolvedFlagView,
};
use crate::text::{append_bytes, Rel};
use crate::wire::{
    encode, encode_flags, encode_header, lemma_encode_flags_push, lemma_take_flags,
    lemma_take_flags_sound, put_flag, read_flag, take_flags, FORMAT_VERSION,
};
use vstd::bytes::{
    lemma_auto_spec_u32_to_from_le_bytes, lemma_auto_spec_u64_to_from_le_bytes,
    spec_u32_from_le_bytes, spec_u32_to_le_bytes, spec_u64_from_le_bytes, spec_u64_to_le_bytes,
    u32_from_le_bytes, u32_to_le_bytes, u64_from_le_bytes, u64_to_le_bytes,
};
use vstd::prelude::*;
use vstd::slice::slice_subrange;

verus! {

/// Why bytes were not read as a cache.
#[derive(Clone, Copy, Debug, PartialEq, Eq, Structural)]
pub enum CacheError {
    /// The bytes name a version of the format other than the one this
    /// library reads.
    UnsupportedVersion { found: u32, supported: u32 },
    /// The bytes are cut short, go on too long, or hold what no cache writes.
    Malformed,
}

/// What reading `bytes` must give.
///
/// Bytes too short to hold a version are malformed. Bytes of another version
/// are refused as such, whatever follows. Bytes of this version give the one
/// cache that writes exactly them, and are malformed where there is none.
pub open spec fn deserialized(bytes: Seq<u8>, r: Result<CacheView, CacheError>) -> bool {
    if bytes.len() < 4 {
        r == Err::<CacheView, CacheError>(CacheError::Malformed)
    } else {
        let found = spec_u32_from_le_bytes(bytes.take(4));
        if found != FORMAT_VERSION {
            r == Err::<CacheView, CacheError>(
                CacheError::UnsupportedVersion { found, supported: FORMAT_VERSION },
            )
        } else {
            match r {
                Ok(c) => c.wf() && encode(c) == bytes,
                Err(e) => e == CacheError::Malformed && forall|c: CacheView|
                    #![auto]
                    c.wf() ==> encode(c) != bytes,
            }
        }
    }
}

// Reading as a function of the bytes, step by step as `deserialize` goes.
spec fn decode(b: Seq<u8>) -> Result<CacheView, CacheError> {
    if b.len() < 4 {
        Err(CacheError::Malformed)
    } else if spec_u32_from_le_bytes(b.take(4)) != FORMAT_VERSION {
        Err(
            CacheError::UnsupportedVersion {
                found: spec_u32_from_le_bytes(b.take(4)),
                supported: FORMAT_VERSION,
            },
        )
    } else if b.len() < 16 {
        Err(CacheError::Malformed)
    } else {
        let build_id = spec_u32_from_le_bytes(b.subrange(4, 8));
        let count = spec_u64_from_le_bytes(b.subrange(8, 16));
        finish(build_id, take_flags(b.skip(16), count as nat))
    }
}

// The end of reading: the flags must be all there is, and in order.
spec fn finish(build_id: u32, read: Option<(Seq<ResolvedFlagView>, Seq<u8>)>) -> Result<
    CacheView,
    CacheError,
> {
    match read {
        Some((flags, rest)) => if rest.len() == 0 && sorted_by_key(flags) {
            Ok(CacheView { build_id, flags })
        } else {
            Err(CacheError::Malformed)
        },
        None => Err(CacheError::Malformed),
    }
}

proof fn lemma_header(build_id: u32, count: nat, body: Seq<u8>)
    requires
        count <= u64::MAX,
    ensures
        ({
            let b = encode_header(build_id, count) + body;
            &&& b.len() == 16 + body.len()
            &&& spec_u32_from_le_bytes(b.take(4)) == FORMAT_VERSION
            &&& spec_u32_from_le_bytes(b.subrange(4, 8)) == build_id
            &&& spec_u64_from_le_bytes(b.subrange(8, 16)) == count
            &&& b.skip(16) == body
        }),
{
    lemma_auto_spec_u32_to_from_le_bytes();
    lemma_auto_spec_u64_to_from_le_bytes();
    let b = encode_header(build_id, count) + body;
    assert(b.take(4) =~= spec_u32_to_le_bytes(FORMAT_VERSION));
    assert(b.subrange(4, 8) =~= spec_u32_to_le_bytes(build_id));
    assert(b.subrange(8, 16) =~= spec_u64_to_le_bytes(count as u64));
    assert(b.skip(16) =~= body);
}

proof fn lemma_decode_encode(c: CacheView)
    requires
        c.wf(),
    ensures
        decode(encode(c)) == Ok::<CacheView, CacheError>(c),
{
    let body = encode_flags(c.flags);
    lemma_header(c.build_id, c.flags.len(), body);
    assert(body + Seq::<u8>::empty() =~= body);
    lemma_take_flags(c.flags, Seq::empty());
}

proof fn lemma_decode_sound(b: Seq<u8>, c: CacheView)
    requires
        decode(b) == Ok::<CacheView, CacheError>(c),
    ensures
        c.wf(),
        encode(c) == b,
{
    lemma_auto_spec_u32_to_from_le_bytes();
    lemma_auto_spec_u64_to_from_le_bytes();
    let count = spec_u64_from_le_bytes(b.subrange(8, 16));
    let body = b.skip(16);
    if let Some((flags, rest)) = take_flags(body, count as nat) {
        assert(rest =~= Seq::<u8>::empty());
        lemma_take_flags_sound(body, count as nat, flags, rest);
    }
    assert(encode_flags(c.flags) + Seq::<u8>::empty() =~= encode_flags(c.flags));
    assert(spec_u32_to_le_bytes(FORMAT_VERSION) == b.take(4));
    assert(spec_u32_to_le_bytes(c.build_id) == b.subrange(4, 8));
    assert(spec_u64_to_le_bytes(count) == b.subrange(8, 16));
    assert(b =~= b.take(4) + b.subrange(4, 8) + b.subrange(8, 16) + body);
}

proof fn lemma_decode_meets(b: Seq<u8>)
    ensures
        deserialized(b, decode(b)),
{
    match decode(b) {
        Ok(c) => {
            lemma_decode_sound(b, c);
        },
        Err(e) => {
            assert forall|c: CacheView| #![auto] c.wf() implies encode(c) != b by {
                if encode(c) == b {
                    lemma_decode_encode(c);
                }
            }
        },
    }
}

/// Two caches with the same bytes are the same cache.
pub proof fn lemma_encode_injective(a: CacheView, b: CacheView)
    requires
        a.wf(),
        b.wf(),
        encode(a) == encode(b),
    ensures
        a == b,
{
    lemma_decode_encode(a);
    lemma_decode_encode(b);
}

/// What reading gives is fixed by the bytes: two results of reading the same
/// bytes are the same.
pub proof fn lemma_deserialized_once(
    bytes: Seq<u8>,
    r1: Result<CacheView, CacheError>,
    r2: Result<CacheView, CacheError>,
)
    requires
        deserialized(bytes, r1),
        deserialized(bytes, r2),
    ensures
        r1 == r2,
{
    if let Ok(a) = r1 {
        if let Ok(b) = r2 {
            lemma_encode_injective(a, b);
        }
    }
}

/// Reading what was written gives back the cache that was written, flag for
/// flag and in the same order: whatever [`Cache::deserialize`] may return on
/// the bytes of `c`, it is `c`.
pub proof fn lemma_round_trip(c: CacheView, r: Result<CacheView, CacheError>)
    requires
        c.wf(),
        deserialized(encode(c), r),
    ensures
        r == Ok::<CacheView, CacheError>(c),
{
    lemma_header(c.build_id, c.flags.len(), encode_flags(c.flags));
    match r {
        Ok(d) => {
            lemma_encode_injective(c, d);
        },
        Err(e) => {
            assert(c.wf() ==> encode(c) != encode(c));
        },
    }
}

/// Bytes cut short are malformed: whatever [`Cache::deserialize`] may return
/// on a proper prefix of the bytes of `c`, it is the error `Malformed`, never
/// a cache.
pub proof fn lemma_truncated_is_malformed(c: CacheView, k: int, r: Result<CacheView, CacheError>)
    requires
        c.wf(),
        0 <= k < encode(c).len(),
        deserialized(encode(c).take(k), r),
    ensures
        r == Err::<CacheView, CacheError>(CacheError::Malformed),
{
    let whole = encode(c);
    let cut = whole.take(k);
    lemma_header(c.build_id, c.flags.len(), encode_flags(c.flags));
    if k >= 4 {
        assert(cut.take(4) =~= whole.take(4));
        if let Ok(d) = r {
            let dropped = whole.skip(k);
            lemma_header(d.build_id, d.flags.len(), encode_flags(d.flags));
            assert(cut.subrange(4, 8) =~= whole.subrange(4, 8));
            assert(cut.subrange(8, 16) =~= whole.subrange(8, 16));
            assert(d.flags.len() == c.flags.len());
            assert(encode_flags(c.flags) =~= encode_flags(d.flags) + dropped) by {
                assert(encode_flags(c.flags) == whole.skip(16));
                assert(encode_flags(d.flags) == cut.skip(16));
                assert(whole.skip(16) =~= cut.skip(16) + dropped);
            }
            lemma_take_flags(d.flags, dropped);
            assert(encode_flags(c.flags) + Seq::<u8>::empty() =~= encode_flags(c.flags));
            lemma_take_flags(c.flags, Seq::empty());
        }
    }
}

/// The resolved flags of one build.
#[derive(Debug, PartialEq, Eq)]
pub struct Cache {
    build_id: u32,
    flags: Vec<ResolvedFlag>,
}

impl View for Cache {
    type V = CacheView;

    closed spec fn view(&self) -> CacheView {
        CacheView { build_id: self.build_id, flags: flag_views(self.flags@) }
    }
}

impl Clone for Cache {
    fn clone(&self) -> (cache: Cache)
        ensures
            cache@ == self@,
    {
        proof {
            use_type_invariant(self);
        }
        let mut flags: Vec<ResolvedFlag> = Vec::new();
        let mut i: usize = 0;
        while i < self.flags.len()
            invariant
                i <= self.flags.len(),
                flag_views(flags@) == flag_views(self.flags@).take(i as int),
            decreases self.flags.len() - i,
        {
            let ghost before = flag_views(flags@);
            let f = self.flags[i].clone();
            proof {
                assert(flag_views(flags@.push(f)) =~= before.push(f@));
                assert(flag_views(self.flags@).take(i + 1) =~= before.push(f@));
            }
            flags.push(f);
            i += 1;
        }
        proof {
            assert(flag_views(self.flags@).take(i as int) =~= flag_views(self.flags@));
        }
        Cache { build_id: self.build_id, flags }
    }
}

// The reading of the first flags, put before the reading of the rest.
spec fn joined(
    first: Seq<ResolvedFlagView>,
    more: Option<(Seq<ResolvedFlagView>, Seq<u8>)>,
) -> Option<(Seq<ResolvedFlagView>, Seq<u8>)> {
    match more {
        Some((flags, rest)) => Some((first + flags, rest)),
        None => None,
    }
}

/// Whether flags stand in strictly ascending order of their keys.
pub fn check_sorted(flags: &[ResolvedFlag]) -> (ok: bool)
    ensures
        ok == sorted_by_key(flag_views(flags@)),
{
    let ghost views = flag_views(flags@);
    if flags.len() < 2 {
        return true;
    }
    let mut i: usize = 1;
    while i < flags.len()
        invariant
            1 <= i <= flags.len(),
            views == flag_views(flags@),
            sorted_by_key(views.take(i as int)),
        decreases flags.len() - i,
    {
        if flags[i - 1].key.compare(&flags[i].key) != Rel::Less {
            proof {
                assert(!views[i - 1].key.lt(views[i as int].key));
            }
            return false;
        }
        proof {
            let before = views.take(i as int);
            let now = views.take(i + 1);
            assert forall|a: int, b: int| 0 <= a < b < now.len() implies now[a].key.lt(
                now[b].key,
            ) by {
                if b < i {
                    assert(before[a].key.lt(before[b].key));
                } else if a < i - 1 {
                    assert(before[a].key.lt(before[i - 1].key));
                    lemma_key_lt_transitive(views[a].key, views[i - 1].key, views[i as int].key);
                }
            }
        }
        i += 1;
    }
    proof {
        assert(views.take(i as int) =~= views);
    }
    true
}

impl Cache {
    #[verifier::type_invariant]
    spec fn well_formed(self) -> bool {
        self@.wf()
    }

    /// A cache of flags that are known to be in order.
    pub(crate) fn from_sorted(build_id: u32, flags: Vec<ResolvedFlag>) -> (cache: Cache)
        requires
            (CacheView { build_id, flags: flag_views(flags@) }).wf(),
        ensures
            cache@ == (CacheView { build_id, flags: flag_views(flags@) }),
    {
        Cache { build_id, flags }
    }

    /// The identifier of the build that this cache was made for.
    pub fn build_id(&self) -> (id: u32)
        ensures
            id == self@.build_id,
    {
        self.build_id
    }

    /// The flags, in ascending order of their keys. Every cache that exists
    /// is well formed, which the contract passes on.
    pub fn flags(&self) -> (flags: &[ResolvedFlag])
        ensures
            flag_views(flags@) == self@.flags,
            self@.wf(),
    {
        proof {
            use_type_invariant(self);
        }
        self.flags.as_slice()
    }

    /// The bytes of this cache.
    pub fn serialize(&self) -> (bytes: Vec<u8>)
        ensures
            bytes@ == encode(self@),
    {
        let ghost views = flag_views(self.flags@);
        let mut out: Vec<u8> = Vec::new();
        let version = u32_to_le_bytes(FORMAT_VERSION);
        append_bytes(&mut out, version.as_slice());
        let build_id = u32_to_le_bytes(self.build_id);
        append_bytes(&mut out, build_id.as_slice());
        let count = u64_to_le_bytes(self.flags.len() as u64);
        append_bytes(&mut out, count.as_slice());
        proof {
            assert(out@ =~= encode_header(self.build_id, views.len()));
            assert(views.take(0) =~= Seq::<ResolvedFlagView>::empty());
            assert(out@ =~= encode_header(self.build_id, views.len()) + encode_flags(views.take(0)));
        }
        let mut i: usize = 0;
        while i < self.flags.len()
            invariant
                i <= self.flags.len(),
                views == flag_views(self.flags@),
                out@ == encode_header(self.build_id, views.len()) + encode_flags(
                    views.take(i as int),
                ),
            decreases self.flags.len() - i,
        {
            put_flag(&mut out, &self.flags[i]);
            proof {
                assert(views.take(i + 1) =~= views.take(i as int).push(views[i as int]));
                lemma_encode_flags_push(views.take(i as int), views[i as int]);
                assert(out@ =~= encode_header(self.build_id, views.len()) + encode_flags(
                    views.take(i + 1),
                ));
            }
            i += 1;
        }
        proof {
            assert(views.take(i as int) =~= views);
        }
        out
    }

    /// Reads a cache from bytes that [`Cache::serialize`] wrote.
    pub fn deserialize(bytes: &[u8]) -> (r: Result<Cache, CacheError>)
        ensures
            match r {
                Ok(cache) => deserialized(bytes@, Ok(cache@)),
                Err(e) => deserialized(bytes@, Err(e)),
            },
    {
        proof {
            lemma_decode_meets(bytes@);
        }
        if bytes.len() < 4 {
            return Err(CacheError::Malformed);
        }
        let found = u32_from_le_bytes(slice_subrange(bytes, 0, 4));
        proof {
            assert(bytes@.take(4) =~= bytes@.subrange(0, 4));
        }
        if found != FORMAT_VERSION {
            return Err(CacheError::UnsupportedVersion { found, supported: FORMAT_VERSION });
        }
        if bytes.len() < 16 {
            return Err(CacheError::Malformed);
        }
        let build_id = u32_from_le_bytes(slice_subrange(bytes, 4, 8));
        let count = u64_from_le_bytes(slice_subrange(bytes, 8, 16));
        let ghost body = bytes@.skip(16);
        let mut flags: Vec<ResolvedFlag> = Vec::new();
        let mut pos: usize = 16;
        let mut i: u64 = 0;
        proof {
            let all = take_flags(body, count as nat);
            assert(joined(flag_views(flags@), all) == all) by {
                if let Some((fs, rest)) = all {
                    assert(flag_views(flags@) + fs =~= fs);
                }
            }
        }
        while i < count
            invariant
                i <= count,
                16 <= pos <= bytes.len(),
                body == bytes@.skip(16),
                deserialized(bytes@, decode(bytes@)),
                decode(bytes@) == finish(build_id, take_flags(body, count as nat)),
                take_flags(body, count as nat) == joined(
                    flag_views(flags@),
                    take_flags(bytes@.skip(pos as int), (count - i) as nat),
                ),
            decreases count - i,
        {
            let ghost before = flag_views(flags@);
            let ghost here = bytes@.skip(pos as int);
            match read_flag(bytes, pos) {
                None => {
                    proof {
                        assert(take_flags(here, (count - i) as nat) is None);
                    }
                    return Err(CacheError::Malformed);
                },
                Some((f, next)) => {
                    proof {
                        let more = take_flags(bytes@.skip(next as int), (count - i - 1) as nat);
                        assert(take_flags(here, (count - i) as nat) == joined(seq![f@], more));
                        assert(flag_views(flags@.push(f)) =~= before.push(f@));
                        if let Some((fs, rest)) = more {
                            assert(before + (seq![f@] + fs) =~= before.push(f@) + fs);
                        }
                    }
                    flags.push(f);
                    pos = next;
                },
            }
            i += 1;
        }
        proof {
            assert(flag_views(flags@) + Seq::<ResolvedFlagView>::empty() =~= flag_views(flags@));
        }
        if pos != bytes.len() {
            return Err(CacheError::Malformed);
        }
        if !check_sorted(flags.as_slice()) {
            return Err(CacheError::Malformed);
        }
        proof {
            let c = CacheView { build_id, flags: flag_views(flags@) };
            assert(decode(bytes@) == Ok::<CacheView, CacheError>(c));
            lemma_decode_sound(bytes@, c);
        }
        Ok(Cache { build_id, flags })
    }
}

} // verus!
