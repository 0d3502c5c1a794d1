//! Task and parser names, and the order in which they are listed.
//!
//! Names are compared the way text is usually sorted: byte by byte over
//! their UTF-8 encoding, a proper prefix coming first.

use vstd::prelude::*;
use vstd::utf8::*;
use vstd::string::*;

verus! {

/// `a` and `b` agree on their first `k` bytes, and at position `k` either
/// `a` ends while `b` goes on, or `a` holds the smaller byte.
pub open spec fn bytes_differ_at(a: Seq<u8>, b: Seq<u8>, k: int) -> bool {
    &&& 0 <= k <= a.len()
    &&& k < b.len()
    &&& forall|j: int| 0 <= j < k ==> a[j] == b[j]
    &&& (k == a.len() || a[k] < b[k])
}

/// Lexicographic order on byte strings.
pub open spec fn bytes_lt(a: Seq<u8>, b: Seq<u8>) -> bool {
    exists|k: int| bytes_differ_at(a, b, k)
}

/// The order on names: lexicographic over the UTF-8 encoding.
pub open spec fn name_lt(a: Seq<char>, b: Seq<char>) -> bool {
    bytes_lt(encode_utf8(a), encode_utf8(b))
}

/// A sequence of names is strictly ascending, hence free of duplicates.
pub open spec fn names_ascending(names: Seq<Seq<char>>) -> bool {
    forall|i: int, j: int| 0 <= i < j < names.len() ==> name_lt(names[i], names[j])
}

/// The order on byte strings is transitive.
pub proof fn lemma_bytes_lt_transitive(a: Seq<u8>, b: Seq<u8>, c: Seq<u8>)
    requires
        bytes_lt(a, b),
        bytes_lt(b, c),
    ensures
        bytes_lt(a, c),
{
    let k1 = choose|k: int| bytes_differ_at(a, b, k);
    let k2 = choose|k: int| bytes_differ_at(b, c, k);
    if k1 <= k2 {
        assert(bytes_differ_at(a, c, k1));
    } else {
        assert(bytes_differ_at(a, c, k2));
    }
}

proof fn lemma_common_prefix(a: Seq<u8>, b: Seq<u8>, k: int)
    requires
        !bytes_lt(a, b),
        !bytes_lt(b, a),
        0 <= k <= a.len(),
        k <= b.len(),
    ensures
        forall|j: int| 0 <= j < k ==> a[j] == b[j],
    decreases k,
{
    if k > 0 {
        lemma_common_prefix(a, b, k - 1);
        if a[k - 1] != b[k - 1] {
            assert(bytes_differ_at(a, b, k - 1) || bytes_differ_at(b, a, k - 1));
        }
    }
}

/// Of two different byte strings one comes before the other.
pub proof fn lemma_bytes_lt_total(a: Seq<u8>, b: Seq<u8>)
    ensures
        bytes_lt(a, b) || bytes_lt(b, a) || a == b,
{
    if !bytes_lt(a, b) && !bytes_lt(b, a) {
        let k = if a.len() <= b.len() { a.len() as int } else { b.len() as int };
        lemma_common_prefix(a, b, k);
        if a.len() < b.len() {
            assert(bytes_differ_at(a, b, k));
        } else if b.len() < a.len() {
            assert(bytes_differ_at(b, a, k));
        }
        assert(a =~= b);
    }
}

/// No name comes before itself.
pub proof fn lemma_name_lt_irreflexive(a: Seq<char>)
    ensures
        !name_lt(a, a),
{
}

/// The order on names is transitive.
pub proof fn lemma_name_lt_transitive(a: Seq<char>, b: Seq<char>, c: Seq<char>)
    requires
        name_lt(a, b),
        name_lt(b, c),
    ensures
        name_lt(a, c),
{
    lemma_bytes_lt_transitive(encode_utf8(a), encode_utf8(b), encode_utf8(c));
}

/// Of two different names one comes before the other.
pub proof fn lemma_name_lt_total(a: Seq<char>, b: Seq<char>)
    ensures
        name_lt(a, b) || name_lt(b, a) || a == b,
{
    lemma_bytes_lt_total(encode_utf8(a), encode_utf8(b));
    if encode_utf8(a) == encode_utf8(b) {
        encode_utf8_decode_utf8(a);
        encode_utf8_decode_utf8(b);
    }
}

/// Never both `a` before `b` and `b` before `a`.
pub proof fn lemma_name_lt_asymmetric(a: Seq<char>, b: Seq<char>)
    requires
        name_lt(a, b),
    ensures
        !name_lt(b, a),
        a != b,
{
    if name_lt(b, a) {
        lemma_name_lt_transitive(a, b, a);
    }
    lemma_name_lt_irreflexive(a);
}

/// Names in ascending order are pairwise different.
pub proof fn lemma_ascending_distinct(names: Seq<Seq<char>>, i: int, j: int)
    requires
        names_ascending(names),
        0 <= i < names.len(),
        0 <= j < names.len(),
        i != j,
    ensures
        names[i] != names[j],
{
    if i < j {
        lemma_name_lt_asymmetric(names[i], names[j]);
    } else {
        lemma_name_lt_asymmetric(names[j], names[i]);
    }
}

/// Whether `a` sorts strictly before `b`.
pub fn name_before(a: &str, b: &str) -> (r: bool)
    ensures
        r == name_lt(a@, b@),
{
    let x = a.as_bytes();
    let y = b.as_bytes();
    let n = x.len();
    let m = y.len();
    let mut i: usize = 0;
    while i < n && i < m
        invariant
            x@ == encode_utf8(a@),
            y@ == encode_utf8(b@),
            n == x@.len(),
            m == y@.len(),
            i <= n,
            i <= m,
            forall|j: int| 0 <= j < i ==> x@[j] == y@[j],
        decreases n - i,
    {
        if x[i] != y[i] {
            let less = x[i] < y[i];
            proof {
                if less {
                    assert(bytes_differ_at(x@, y@, i as int));
                } else {
                    assert forall|k: int| !bytes_differ_at(x@, y@, k) by {
                        if bytes_differ_at(x@, y@, k) {
                            if k > i {
                                assert(x@[i as int] == y@[i as int]);
                            }
                        }
                    }
                }
            }
            return less;
        }
        i = i + 1;
    }
    proof {
        if n < m {
            assert(bytes_differ_at(x@, y@, n as int));
        } else {
            assert forall|k: int| !bytes_differ_at(x@, y@, k) by {
                if bytes_differ_at(x@, y@, k) {
                    if k < m {
                        assert(x@[k] == y@[k]);
                    }
                }
            }
        }
    }
    n < m
}

/// Whether two names are the same text.
pub fn same_name(a: &str, b: &str) -> (r: bool)
    ensures
        r == (a@ == b@),
{
    let less = name_before(a, b);
    let more = name_before(b, a);
    proof {
        lemma_name_lt_total(a@, b@);
        if a@ == b@ {
            lemma_name_lt_irreflexive(a@);
        }
    }
    !less && !more
}

} // verus!
