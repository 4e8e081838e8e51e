//! Where a key stands among the keys of a map: neighbours and extremes, by rank.
use vstd::prelude::*;
use crate::key::OrderedKey;
use crate::shape::strictly_between;

verus! {

/// `s` is a key of `m`, and no key of `m` lies strictly between `s` and `k`:
/// `s` is `k` itself, the largest key below `k` or the smallest above it.
pub open spec fn adjacent<K: OrderedKey, V>(m: Map<K, V>, s: K, k: K) -> bool {
    &&& m.dom().contains(s)
    &&& forall|x: K| #[trigger] m.dom().contains(x) ==> !strictly_between(s.rank(), k.rank(), x.rank())
}

/// `p` is the largest key of `m` below `k`.
pub open spec fn is_predecessor<K: OrderedKey, V>(m: Map<K, V>, k: K, p: K) -> bool {
    &&& m.dom().contains(p)
    &&& p.rank() < k.rank()
    &&& forall|x: K| #[trigger] m.dom().contains(x) && x.rank() < k.rank() ==> x.rank() <= p.rank()
}

/// `s` is the smallest key of `m` above `k`.
pub open spec fn is_successor<K: OrderedKey, V>(m: Map<K, V>, k: K, s: K) -> bool {
    &&& m.dom().contains(s)
    &&& s.rank() > k.rank()
    &&& forall|x: K| #[trigger] m.dom().contains(x) && x.rank() > k.rank() ==> x.rank() >= s.rank()
}

/// `k` is the largest key of `m`.
pub open spec fn is_max<K: OrderedKey, V>(m: Map<K, V>, k: K) -> bool {
    &&& m.dom().contains(k)
    &&& forall|x: K| #[trigger] m.dom().contains(x) ==> x.rank() <= k.rank()
}

/// `k` is the smallest key of `m`.
pub open spec fn is_min<K: OrderedKey, V>(m: Map<K, V>, k: K) -> bool {
    &&& m.dom().contains(k)
    &&& forall|x: K| #[trigger] m.dom().contains(x) ==> x.rank() >= k.rank()
}

} // verus!
