use std::cmp::Ordering;
use vstd::prelude::*;
use vstd::utf8::*;

verus! {

/// `a` and `b` agree before position `i`, and `i` is where `a` first
/// comes before `b`: either a smaller byte, or the end of `a` while `b`
/// goes on.
pub open spec fn lt_at(a: Seq<u8>, b: Seq<u8>, i: int) -> bool {
    &&& 0 <= i <= a.len()
    &&& i <= b.len()
    &&& forall|j: int| 0 <= j < i ==> #[trigger] a[j] == b[j]
    &&& ((i < a.len() && i < b.len() && a[i] < b[i]) || (i == a.len() && i < b.len()))
}

/// Byte-wise lexicographic order.
pub open spec fn bytes_lt(a: Seq<u8>, b: Seq<u8>) -> bool {
    exists|i: int| lt_at(a, b, i)
}

/// Identifier order: the lexicographic order of the identifiers' UTF-8
/// bytes, which is the order of Rust's `str`.
pub open spec fn id_lt(a: Seq<char>, b: Seq<char>) -> bool {
    bytes_lt(encode_utf8(a), encode_utf8(b))
}

proof fn lemma_bytes_lt_asym(a: Seq<u8>, b: Seq<u8>)
    ensures
        !(bytes_lt(a, b) && bytes_lt(b, a)),
{
    if bytes_lt(a, b) && bytes_lt(b, a) {
        let i = choose|i: int| lt_at(a, b, i);
        let j = choose|j: int| lt_at(b, a, j);
        if i < j {
            assert(b[i] == a[i]);
        } else if j < i {
            assert(a[j] == b[j]);
        }
    }
}

proof fn lemma_bytes_lt_trans(a: Seq<u8>, b: Seq<u8>, c: Seq<u8>)
    requires
        bytes_lt(a, b),
        bytes_lt(b, c),
    ensures
        bytes_lt(a, c),
{
    let i = choose|i: int| lt_at(a, b, i);
    let j = choose|j: int| lt_at(b, c, j);
    if i < j {
        assert forall|k: int| 0 <= k < i implies #[trigger] a[k] == c[k] by {
            assert(a[k] == b[k]);
            assert(b[k] == c[k]);
        }
        if i < a.len() {
            assert(b[i] == c[i]);
        }
        assert(lt_at(a, c, i));
    } else {
        assert forall|k: int| 0 <= k < j implies #[trigger] a[k] == c[k] by {
            assert(a[k] == b[k]);
            assert(b[k] == c[k]);
        }
        if j < i {
            assert(a[j] == b[j]);
        }
        assert(lt_at(a, c, j));
    }
}

proof fn lemma_bytes_lt_total(a: Seq<u8>, b: Seq<u8>)
    requires
        a != b,
    ensures
        bytes_lt(a, b) || bytes_lt(b, a),
{
    if exists|k: int| 0 <= k < a.len() && k < b.len() && a[k] != b[k] {
        let k = choose|k: int| 0 <= k < a.len() && k < b.len() && a[k] != b[k];
        lemma_first_difference(a, b, k);
        let m = first_difference(a, b, k);
        if a[m] < b[m] {
            assert(lt_at(a, b, m));
        } else {
            assert(lt_at(b, a, m));
        }
    } else if a.len() < b.len() {
        assert(lt_at(a, b, a.len() as int));
    } else if b.len() < a.len() {
        assert(lt_at(b, a, b.len() as int));
    } else {
        assert(a =~= b);
    }
}

spec fn first_difference(a: Seq<u8>, b: Seq<u8>, k: int) -> int
    decreases k,
{
    if k <= 0 {
        0
    } else if exists|j: int| 0 <= j < k && a[j] != b[j] {
        first_difference(a, b, k - 1)
    } else {
        k
    }
}

proof fn lemma_first_difference(a: Seq<u8>, b: Seq<u8>, k: int)
    requires
        0 <= k < a.len(),
        k < b.len(),
        a[k] != b[k],
    ensures
        0 <= first_difference(a, b, k) <= k,
        a[first_difference(a, b, k)] != b[first_difference(a, b, k)],
        forall|j: int| 0 <= j < first_difference(a, b, k) ==> #[trigger] a[j] == b[j],
    decreases k,
{
    if k > 0 && exists|j: int| 0 <= j < k && a[j] != b[j] {
        let j = choose|j: int| 0 <= j < k && a[j] != b[j];
        lemma_first_difference(a, b, j);
        lemma_first_difference_mono(a, b, j, k - 1);
    }
}

proof fn lemma_first_difference_mono(a: Seq<u8>, b: Seq<u8>, j: int, k: int)
    requires
        0 <= j <= k,
        j < a.len(),
        j < b.len(),
        a[j] != b[j],
    ensures
        first_difference(a, b, k) == first_difference(a, b, j),
    decreases k,
{
    if k > j {
        assert(exists|i: int| 0 <= i < k && a[i] != b[i]) by {
            assert(0 <= j < k && a[j] != b[j]);
        }
        lemma_first_difference_mono(a, b, j, k - 1);
    }
}

/// Identifier order is irreflexive and asymmetric.
pub proof fn lemma_id_lt_asym(a: Seq<char>, b: Seq<char>)
    ensures
        !(id_lt(a, b) && id_lt(b, a)),
        !id_lt(a, a),
{
    lemma_bytes_lt_asym(encode_utf8(a), encode_utf8(b));
    lemma_bytes_lt_asym(encode_utf8(a), encode_utf8(a));
}

/// Identifier order is transitive.
pub proof fn lemma_id_lt_trans(a: Seq<char>, b: Seq<char>, c: Seq<char>)
    requires
        id_lt(a, b),
        id_lt(b, c),
    ensures
        id_lt(a, c),
{
    lemma_bytes_lt_trans(encode_utf8(a), encode_utf8(b), encode_utf8(c));
}

/// Identifier order is total: of two distinct identifiers one comes first.
pub proof fn lemma_id_lt_total(a: Seq<char>, b: Seq<char>)
    requires
        a != b,
    ensures
        id_lt(a, b) || id_lt(b, a),
{
    encode_utf8_decode_utf8(a);
    encode_utf8_decode_utf8(b);
    lemma_bytes_lt_total(encode_utf8(a), encode_utf8(b));
}

/// Compares two identifiers in identifier order.
pub fn compare_ids(a: &str, b: &str) -> (r: Ordering)
    ensures
        (r == Ordering::Less) == id_lt(a@, b@),
        (r == Ordering::Equal) == (a@ == b@),
        (r == Ordering::Greater) == id_lt(b@, a@),
{
    proof {
        lemma_id_lt_asym(a@, b@);
        encode_utf8_decode_utf8(a@);
        encode_utf8_decode_utf8(b@);
    }
    let x = a.as_bytes();
    let y = b.as_bytes();
    let mut i: usize = 0;
    while i < x.len() && i < y.len()
        invariant
            x@ == encode_utf8(a@),
            y@ == encode_utf8(b@),
            i <= x@.len(),
            i <= y@.len(),
            forall|j: int| 0 <= j < i ==> #[trigger] x@[j] == y@[j],
        decreases x@.len() - i,
    {
        if x[i] < y[i] {
            assert(lt_at(x@, y@, i as int));
            return Ordering::Less;
        }
        if x[i] > y[i] {
            assert(lt_at(y@, x@, i as int));
            return Ordering::Greater;
        }
        i += 1;
    }
    if x.len() < y.len() {
        assert(lt_at(x@, y@, i as int));
        Ordering::Less
    } else if y.len() < x.len() {
        assert(lt_at(y@, x@, i as int));
        Ordering::Greater
    } else {
        assert(x@ =~= y@);
        Ordering::Equal
    }
}

} // verus!
