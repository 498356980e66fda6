//! Byte strings: the identifier character set, the lexicographic order, and
//! splitting at a separator byte.
//!
//! Every piece of text the library handles (names, descriptions, source
//! labels) is a byte string. Nothing here assumes an encoding.

use vstd::prelude::*;
use vstd::slice::slice_to_vec;

verus! {

/// Whether `b` may occur in an identifier: an ASCII letter, an ASCII digit or
/// an underscore.
pub open spec fn is_ident_byte(b: u8) -> bool {
    (0x30 <= b <= 0x39) || (0x41 <= b <= 0x5a) || (0x61 <= b <= 0x7a) || b == 0x5f
}

/// Whether `s` is an identifier: non-empty and made of identifier bytes only.
pub open spec fn is_identifier(s: Seq<u8>) -> bool {
    s.len() > 0 && forall|i: int| 0 <= i < s.len() ==> is_ident_byte(#[trigger] s[i])
}

/// Decides [`is_identifier`].
pub fn check_identifier(s: &[u8]) -> (ok: bool)
    ensures
        ok == is_identifier(s@),
{
    if s.len() == 0 {
        return false;
    }
    let mut i: usize = 0;
    while i < s.len()
        invariant
            i <= s.len(),
            forall|k: int| 0 <= k < i ==> is_ident_byte(#[trigger] s@[k]),
        decreases s.len() - i,
    {
        let b: u8 = s[i];
        let ok: bool = (0x30 <= b && b <= 0x39) || (0x41 <= b && b <= 0x5a) || (0x61 <= b && b
            <= 0x7a) || b == 0x5f;
        if !ok {
            return false;
        }
        i += 1;
    }
    true
}

/// An owned copy of `s`.
pub fn copy_bytes(s: &[u8]) -> (out: Vec<u8>)
    ensures
        out@ == s@,
{
    slice_to_vec(s)
}

/// Appends `s` to `out`.
pub fn append_bytes(out: &mut Vec<u8>, s: &[u8])
    ensures
        final(out)@ == old(out)@ + s@,
{
    let mut i: usize = 0;
    while i < s.len()
        invariant
            i <= s.len(),
            out@ == old(out)@ + s@.take(i as int),
        decreases s.len() - i,
    {
        out.push(s[i]);
        proof {
            assert(s@.take(i + 1) =~= s@.take(i as int).push(s@[i as int]));
        }
        i += 1;
    }
    proof {
        assert(s@.take(i as int) =~= s@);
    }
}

/// `a` and `b` agree on their first `k` bytes.
pub open spec fn common_prefix(a: Seq<u8>, b: Seq<u8>, k: int) -> bool {
    &&& 0 <= k <= a.len()
    &&& k <= b.len()
    &&& forall|i: int| 0 <= i < k ==> a[i] == b[i]
}

/// `a` sorts before `b`, decided at position `k`: the two agree before `k`,
/// and there `a` ends while `b` goes on, or `a` holds the smaller byte.
pub open spec fn less_at(a: Seq<u8>, b: Seq<u8>, k: int) -> bool {
    &&& common_prefix(a, b, k)
    &&& k < b.len()
    &&& (k == a.len() || a[k] < b[k])
}

/// The strict lexicographic order on byte strings.
pub open spec fn bytes_lt(a: Seq<u8>, b: Seq<u8>) -> bool {
    exists|k: int| less_at(a, b, k)
}

/// No byte string sorts before itself.
pub proof fn lemma_bytes_lt_irreflexive(a: Seq<u8>)
    ensures
        !bytes_lt(a, a),
{
}

/// The lexicographic order is transitive.
pub proof fn lemma_bytes_lt_transitive(a: Seq<u8>, b: Seq<u8>, c: Seq<u8>)
    requires
        bytes_lt(a, b),
        bytes_lt(b, c),
    ensures
        bytes_lt(a, c),
{
    let k1 = choose|k: int| less_at(a, b, k);
    let k2 = choose|k: int| less_at(b, c, k);
    let k = if k1 <= k2 {
        k1
    } else {
        k2
    };
    assert(less_at(a, c, k));
}

/// Of two byte strings at most one sorts before the other.
pub proof fn lemma_bytes_lt_asymmetric(a: Seq<u8>, b: Seq<u8>)
    requires
        bytes_lt(a, b),
    ensures
        !bytes_lt(b, a),
        a != b,
{
    if bytes_lt(b, a) {
        lemma_bytes_lt_transitive(a, b, a);
    }
    lemma_bytes_lt_irreflexive(a);
}

/// How one value stands to another in a strict total order.
#[derive(Clone, Copy, Debug, PartialEq, Eq, Structural)]
pub enum Rel {
    Less,
    Equal,
    Greater,
}

/// Compares two byte strings lexicographically.
pub fn compare_bytes(a: &[u8], b: &[u8]) -> (r: Rel)
    ensures
        r is Less <==> bytes_lt(a@, b@),
        r is Equal <==> a@ == b@,
        r is Greater <==> bytes_lt(b@, a@),
{
    let mut i: usize = 0;
    while i < a.len() && i < b.len()
        invariant
            common_prefix(a@, b@, i as int),
        decreases a.len() - i,
    {
        if a[i] < b[i] {
            proof {
                assert(less_at(a@, b@, i as int));
                lemma_bytes_lt_asymmetric(a@, b@);
            }
            return Rel::Less;
        }
        if a[i] > b[i] {
            proof {
                assert(less_at(b@, a@, i as int));
                lemma_bytes_lt_asymmetric(b@, a@);
            }
            return Rel::Greater;
        }
        i += 1;
    }
    if a.len() < b.len() {
        proof {
            assert(less_at(a@, b@, i as int));
            lemma_bytes_lt_asymmetric(a@, b@);
        }
        Rel::Less
    } else if a.len() > b.len() {
        proof {
            assert(less_at(b@, a@, i as int));
            lemma_bytes_lt_asymmetric(b@, a@);
        }
        Rel::Greater
    } else {
        proof {
            assert(a@ =~= b@);
            lemma_bytes_lt_irreflexive(a@);
        }
        Rel::Equal
    }
}

/// The number of bytes of `s` that come before the first `sep`; all of them
/// where `s` holds no `sep`.
pub open spec fn until(s: Seq<u8>, sep: u8) -> int
    decreases s.len(),
{
    if s.len() == 0 || s[0] == sep {
        0
    } else {
        1 + until(s.skip(1), sep)
    }
}

/// The pieces of `s` between occurrences of `sep`, in order. There is one
/// piece more than there are separators, so the result is never empty, and a
/// piece is empty where two separators meet or one stands at either end.
pub open spec fn split(s: Seq<u8>, sep: u8) -> Seq<Seq<u8>>
    decreases s.len(),
    via split_decreases
{
    let n = until(s, sep);
    if n >= s.len() {
        seq![s]
    } else {
        seq![s.take(n)] + split(s.skip(n + 1), sep)
    }
}

#[via_fn]
proof fn split_decreases(s: Seq<u8>, sep: u8) {
    lemma_until_bounds(s, sep);
}

/// `until` stays within `s`.
pub proof fn lemma_until_bounds(s: Seq<u8>, sep: u8)
    ensures
        0 <= until(s, sep) <= s.len(),
    decreases s.len(),
{
    if s.len() != 0 && s[0] != sep {
        lemma_until_bounds(s.skip(1), sep);
    }
}

/// `until` is the position of the first separator: no separator comes before
/// `n`, and `n` is the end of `s` or holds one.
pub proof fn lemma_until_is(s: Seq<u8>, sep: u8, n: int)
    requires
        0 <= n <= s.len(),
        forall|i: int| 0 <= i < n ==> s[i] != sep,
        n == s.len() || s[n] == sep,
    ensures
        until(s, sep) == n,
    decreases n,
{
    if n > 0 {
        lemma_until_is(s.skip(1), sep, n - 1);
    }
}

/// What a vector of byte strings holds.
pub open spec fn views(v: Seq<Vec<u8>>) -> Seq<Seq<u8>> {
    v.map_values(|p: Vec<u8>| p@)
}

/// Splits `s` at every `sep`.
pub fn split_bytes(s: &[u8], sep: u8) -> (pieces: Vec<Vec<u8>>)
    ensures
        views(pieces@) == split(s@, sep),
{
    let mut pieces: Vec<Vec<u8>> = Vec::new();
    let mut start: usize = 0;
    let mut i: usize = 0;
    proof {
        assert(s@.skip(0) =~= s@);
        assert(views(pieces@) + split(s@, sep) =~= split(s@, sep));
    }
    while i < s.len()
        invariant
            start <= i <= s.len(),
            forall|k: int| start <= k < i ==> s@[k] != sep,
            split(s@, sep) == views(pieces@) + split(s@.skip(start as int), sep),
        decreases s.len() - i,
    {
        if s[i] == sep {
            let piece: Vec<u8> = slice_to_vec(vstd::slice::slice_subrange(s, start, i));
            proof {
                let rest = s@.skip(start as int);
                lemma_until_is(rest, sep, i - start);
                assert(rest.take(i - start) =~= s@.subrange(start as int, i as int));
                assert(rest.skip(i - start + 1) =~= s@.skip(i + 1));
                assert(views(pieces@).push(piece@) + split(s@.skip(i + 1), sep)
                    =~= views(pieces@) + split(rest, sep));
            }
            let ghost before = views(pieces@);
            pieces.push(piece);
            proof {
                assert(views(pieces@) =~= before.push(piece@));
            }
            start = i + 1;
        }
        i += 1;
    }
    let piece: Vec<u8> = slice_to_vec(vstd::slice::slice_subrange(s, start, i));
    proof {
        let rest = s@.skip(start as int);
        lemma_until_is(rest, sep, i - start);
        assert(rest =~= piece@);
        assert(views(pieces@).push(piece@) =~= views(pieces@) + split(rest, sep));
    }
    let ghost before = views(pieces@);
    pieces.push(piece);
    proof {
        assert(views(pieces@) =~= before.push(piece@));
    }
    pieces
}

} // verus!
