//! Stable ordering of lists by a key.
use vstd::prelude::*;
use vstd::utf8::*;

verus! {

// ─── Keys ───────────────────────────────────────────────────────────────────

/// A value that lists are ordered by.
pub trait Key: Sized {
    /// `self` may stand before `other`.
    spec fn at_or_before(self, other: Self) -> bool;

    /// Any two keys can be ordered.
    proof fn order_total(a: Self, b: Self)
        ensures
            a.at_or_before(b) || b.at_or_before(a),
    ;

    /// The order is transitive.
    proof fn order_transitive(a: Self, b: Self, c: Self)
        requires
            a.at_or_before(b),
            b.at_or_before(c),
        ensures
            a.at_or_before(c),
    ;

    /// `self` may stand before `other`.
    fn key_le(&self, other: &Self) -> (r: bool)
        ensures
            r == self.at_or_before(*other),
    ;
}

impl Key for i64 {
    open spec fn at_or_before(self, other: Self) -> bool {
        self <= other
    }

    proof fn order_total(a: Self, b: Self) {
    }

    proof fn order_transitive(a: Self, b: Self, c: Self) {
    }

    fn key_le(&self, other: &Self) -> (r: bool) {
        *self <= *other
    }
}

impl Key for (i64, i64) {
    open spec fn at_or_before(self, other: Self) -> bool {
        self.0 < other.0 || (self.0 == other.0 && self.1 <= other.1)
    }

    proof fn order_total(a: Self, b: Self) {
    }

    proof fn order_transitive(a: Self, b: Self, c: Self) {
    }

    fn key_le(&self, other: &Self) -> (r: bool) {
        self.0 < other.0 || (self.0 == other.0 && self.1 <= other.1)
    }
}

/// Lexicographic order of byte strings.
pub open spec fn bytes_le(a: Seq<u8>, b: Seq<u8>) -> bool
    decreases a.len(),
{
    if a.len() == 0 {
        true
    } else if b.len() == 0 {
        false
    } else if a[0] != b[0] {
        a[0] < b[0]
    } else {
        bytes_le(a.drop_first(), b.drop_first())
    }
}

/// Order of texts by their UTF-8 bytes.
pub open spec fn text_le(a: Seq<char>, b: Seq<char>) -> bool {
    bytes_le(encode_utf8(a), encode_utf8(b))
}

proof fn lemma_bytes_total(a: Seq<u8>, b: Seq<u8>)
    ensures
        bytes_le(a, b) || bytes_le(b, a),
    decreases a.len(),
{
    if a.len() > 0 && b.len() > 0 && a[0] == b[0] {
        lemma_bytes_total(a.drop_first(), b.drop_first());
    }
}

proof fn lemma_bytes_transitive(a: Seq<u8>, b: Seq<u8>, c: Seq<u8>)
    requires
        bytes_le(a, b),
        bytes_le(b, c),
    ensures
        bytes_le(a, c),
    decreases a.len(),
{
    if a.len() > 0 && b.len() > 0 && c.len() > 0 && a[0] == b[0] && b[0] == c[0] {
        lemma_bytes_transitive(a.drop_first(), b.drop_first(), c.drop_first());
    }
}

proof fn lemma_bytes_antisymmetric(a: Seq<u8>, b: Seq<u8>)
    requires
        bytes_le(a, b),
        bytes_le(b, a),
    ensures
        a == b,
    decreases a.len(),
{
    if a.len() > 0 && b.len() > 0 {
        lemma_bytes_antisymmetric(a.drop_first(), b.drop_first());
        assert(a =~= seq![a[0]] + a.drop_first());
        assert(b =~= seq![b[0]] + b.drop_first());
    } else {
        assert(a =~= b);
    }
}

/// Byte strings are ordered by the first byte in which they differ, and where there is none
/// the shorter one comes first.
pub proof fn bytes_by_first_difference(a: Seq<u8>, b: Seq<u8>, p: int)
    requires
        0 <= p <= a.len(),
        p <= b.len(),
        forall|q: int| 0 <= q < p ==> #[trigger] a[q] == b[q],
    ensures
        p < a.len() && p < b.len() && a[p] != b[p] ==> (bytes_le(a, b) <==> a[p] < b[p]),
        p == a.len() ==> bytes_le(a, b),
        p == b.len() && p < a.len() ==> !bytes_le(a, b),
    decreases p,
{
    if p > 0 {
        assert(a[0] == b[0]);
        let (s, t) = (a.drop_first(), b.drop_first());
        assert forall|q: int| 0 <= q < p - 1 implies #[trigger] s[q] == t[q] by {
            assert(a[q + 1] == b[q + 1]);
        }
        bytes_by_first_difference(s, t, p - 1);
    }
}

/// Texts are ordered as their UTF-8 bytes are.
pub proof fn texts_by_bytes(a: Seq<char>, b: Seq<char>, p: int)
    requires
        0 <= p <= encode_utf8(a).len(),
        p <= encode_utf8(b).len(),
        forall|q: int| 0 <= q < p ==> #[trigger] encode_utf8(a)[q] == encode_utf8(b)[q],
    ensures
        p < encode_utf8(a).len() && p < encode_utf8(b).len() && encode_utf8(a)[p] != encode_utf8(
            b,
        )[p] ==> (text_le(a, b) <==> encode_utf8(a)[p] < encode_utf8(b)[p]),
        p == encode_utf8(a).len() ==> text_le(a, b),
        p == encode_utf8(b).len() && p < encode_utf8(a).len() ==> !text_le(a, b),
{
    bytes_by_first_difference(encode_utf8(a), encode_utf8(b), p);
}

/// Texts that may stand on either side of each other are equal.
pub proof fn text_order_antisymmetric(a: Seq<char>, b: Seq<char>)
    requires
        text_le(a, b),
        text_le(b, a),
    ensures
        a == b,
{
    lemma_bytes_antisymmetric(encode_utf8(a), encode_utf8(b));
    encode_utf8_decode_utf8(a);
    encode_utf8_decode_utf8(b);
}

/// Order of two texts by their UTF-8 bytes.
pub fn text_at_or_before(a: &str, b: &str) -> (r: bool)
    ensures
        r == text_le(a@, b@),
{
    let x = a.as_bytes();
    let y = b.as_bytes();
    let n: usize = x.len();
    let m: usize = y.len();
    let mut i: usize = 0;
    assert(x@.skip(0) =~= x@);
    assert(y@.skip(0) =~= y@);
    while i < n && i < m
        invariant
            n == x@.len(),
            m == y@.len(),
            i <= n,
            i <= m,
            bytes_le(x@.skip(i as int), y@.skip(i as int)) == bytes_le(x@, y@),
            bytes_le(x@, y@) == text_le(a@, b@),
        decreases n - i,
    {
        if x[i] != y[i] {
            return x[i] < y[i];
        }
        assert(x@.skip(i as int).drop_first() =~= x@.skip(i + 1));
        assert(y@.skip(i as int).drop_first() =~= y@.skip(i + 1));
        i += 1;
    }
    i == n
}

impl Key for String {
    open spec fn at_or_before(self, other: Self) -> bool {
        text_le(self@, other@)
    }

    proof fn order_total(a: Self, b: Self) {
        lemma_bytes_total(encode_utf8(a@), encode_utf8(b@));
    }

    proof fn order_transitive(a: Self, b: Self, c: Self) {
        lemma_bytes_transitive(encode_utf8(a@), encode_utf8(b@), encode_utf8(c@));
    }

    fn key_le(&self, other: &Self) -> (r: bool) {
        text_at_or_before(self.as_str(), other.as_str())
    }
}

// ─── Stable order ───────────────────────────────────────────────────────────

/// In the stable order by key, position `a` comes before position `b`.
pub open spec fn comes_before<K: Key>(keys: Seq<K>, a: int, b: int) -> bool {
    keys[a].at_or_before(keys[b]) && (!keys[b].at_or_before(keys[a]) || a < b)
}

/// The positions are in the stable order by key.
pub open spec fn arranged<K: Key>(keys: Seq<K>, p: Seq<usize>) -> bool {
    forall|i: int, j: int| 0 <= i < j < p.len() ==> comes_before(keys, #[trigger] p[i] as int, #[trigger] p[j] as int)
}

/// `p` lists each position from `lo` up to `hi` once.
pub open spec fn lists_range(p: Seq<usize>, lo: int, hi: int) -> bool {
    &&& p.len() == hi - lo
    &&& p.no_duplicates()
    &&& forall|k: usize| #[trigger] p.contains(k) <==> lo <= k < hi
}

/// A stable order of numbers never falls along the list, and equal numbers keep the order
/// in which they were given.
pub proof fn ordered_numbers(keys: Seq<i64>, p: Seq<usize>, i: int, j: int)
    requires
        arranged(keys, p),
        0 <= i < j < p.len(),
    ensures
        keys[p[i] as int] <= keys[p[j] as int],
        keys[p[i] as int] == keys[p[j] as int] ==> p[i] < p[j],
{
    assert(comes_before(keys, p[i] as int, p[j] as int));
}

/// A stable order of pairs goes by their first members, among equal ones by the second
/// members, and equal pairs keep the order in which they were given.
pub proof fn ordered_pairs(keys: Seq<(i64, i64)>, p: Seq<usize>, i: int, j: int)
    requires
        arranged(keys, p),
        0 <= i < j < p.len(),
    ensures
        keys[p[i] as int].0 <= keys[p[j] as int].0,
        keys[p[i] as int].0 == keys[p[j] as int].0 ==> keys[p[i] as int].1 <= keys[p[j] as int].1,
        keys[p[i] as int] == keys[p[j] as int] ==> p[i] < p[j],
{
    assert(comes_before(keys, p[i] as int, p[j] as int));
}

/// A stable order of texts is that of their bytes, and equal texts keep the order in which
/// they were given.
pub proof fn ordered_texts(keys: Seq<String>, p: Seq<usize>, i: int, j: int)
    requires
        arranged(keys, p),
        0 <= i < j < p.len(),
    ensures
        text_le(keys[p[i] as int]@, keys[p[j] as int]@),
        keys[p[i] as int]@ == keys[p[j] as int]@ ==> p[i] < p[j],
{
    assert(comes_before(keys, p[i] as int, p[j] as int));
}

/// A stable order lists every position of a list once: it is as long as the list, no
/// position comes twice and every one is there.
pub proof fn order_lists_all(p: Seq<usize>, n: int)
    requires
        lists_range(p, 0, n),
        0 <= n <= usize::MAX,
    ensures
        p.len() == n,
        forall|i: int| 0 <= i < n ==> #[trigger] p[i] < n,
        forall|i: int, j: int| 0 <= i < j < n ==> #[trigger] p[i] != #[trigger] p[j],
        forall|k: usize| k < n ==> #[trigger] p.contains(k),
{
    assert forall|i: int| 0 <= i < n implies #[trigger] p[i] < n by {
        assert(p.contains(p[i]));
    }
}

/// The stable order is transitive.
proof fn lemma_before_transitive<K: Key>(keys: Seq<K>, a: int, b: int, c: int)
    requires
        comes_before(keys, a, b),
        comes_before(keys, b, c),
    ensures
        comes_before(keys, a, c),
{
    K::order_transitive(keys[a], keys[b], keys[c]);
    if keys[c].at_or_before(keys[a]) {
        K::order_transitive(keys[c], keys[a], keys[b]);
        K::order_transitive(keys[b], keys[c], keys[a]);
    }
}

/// Of two positions, one comes before the other.
proof fn lemma_before_total<K: Key>(keys: Seq<K>, a: int, b: int)
    ensures
        a != b ==> comes_before(keys, a, b) || comes_before(keys, b, a),
        !(comes_before(keys, a, b) && comes_before(keys, b, a)),
{
    K::order_total(keys[a], keys[b]);
}

/// The stable order of a list is unique.
pub proof fn stable_order_unique<K: Key>(keys: Seq<K>, p: Seq<usize>, q: Seq<usize>)
    requires
        arranged(keys, p),
        arranged(keys, q),
        p.no_duplicates(),
        q.no_duplicates(),
        forall|k: usize| #[trigger] p.contains(k) <==> q.contains(k),
    ensures
        p == q,
    decreases p.len(),
{
    if p.len() == 0 {
        if q.len() > 0 {
            assert(q.contains(q[0]));
            assert(p.contains(q[0]));
        }
        assert(p =~= q);
    } else {
        assert(p.contains(p[0]));
        assert(q.contains(p[0]));
        let j = choose|j: int| 0 <= j < q.len() && q[j] == p[0];
        assert(q.contains(q[0]));
        assert(p.contains(q[0]));
        let i = choose|i: int| 0 <= i < p.len() && p[i] == q[0];
        if p[0] != q[0] {
            assert(comes_before(keys, q[0] as int, q[j] as int));
            assert(comes_before(keys, p[0] as int, p[i] as int));
            lemma_before_total(keys, p[0] as int, q[0] as int);
        }
        let p1 = p.drop_first();
        let q1 = q.drop_first();
        assert forall|k: usize| #[trigger] p1.contains(k) <==> q1.contains(k) by {
            if p1.contains(k) {
                let a = choose|a: int| 0 <= a < p1.len() && p1[a] == k;
                assert(p[a + 1] == k);
                assert(p.contains(k));
                assert(q.contains(k));
                let b = choose|b: int| 0 <= b < q.len() && q[b] == k;
                assert(b != 0);
                assert(q1[b - 1] == k);
            }
            if q1.contains(k) {
                let a = choose|a: int| 0 <= a < q1.len() && q1[a] == k;
                assert(q[a + 1] == k && q[0] != q[a + 1]);
                assert(q.contains(k));
                assert(p.contains(k));
                let b = choose|b: int| 0 <= b < p.len() && p[b] == k;
                assert(b != 0);
                assert(p1[b - 1] == k);
            }
        }
        stable_order_unique(keys, p1, q1);
        assert(p =~= seq![p[0]] + p1);
        assert(q =~= seq![q[0]] + q1);
    }
}

/// Merge two arranged lists of positions, the first of which holds the lower ones.
fn merge<K: Key>(keys: &Vec<K>, left: &Vec<usize>, right: &Vec<usize>, Ghost(lo): Ghost<int>, Ghost(
    mid,
): Ghost<int>, Ghost(hi): Ghost<int>) -> (out: Vec<usize>)
    requires
        0 <= lo <= mid <= hi <= keys@.len(),
        arranged(keys@, left@),
        arranged(keys@, right@),
        lists_range(left@, lo, mid),
        lists_range(right@, mid, hi),
    ensures
        arranged(keys@, out@),
        lists_range(out@, lo, hi),
{
    let mut out: Vec<usize> = Vec::new();
    let mut i: usize = 0;
    let mut j: usize = 0;
    assert forall|a: int| 0 <= a < left@.len() implies lo <= #[trigger] left@[a] < mid by {
        assert(left@.contains(left@[a]));
    }
    assert forall|b: int| 0 <= b < right@.len() implies mid <= #[trigger] right@[b] < hi by {
        assert(right@.contains(right@[b]));
    }
    while i < left.len() || j < right.len()
        invariant
            0 <= lo <= mid <= hi <= keys@.len(),
            arranged(keys@, left@),
            arranged(keys@, right@),
            forall|a: int| 0 <= a < left@.len() ==> lo <= #[trigger] left@[a] < mid,
            forall|b: int| 0 <= b < right@.len() ==> mid <= #[trigger] right@[b] < hi,
            left@.no_duplicates(),
            right@.no_duplicates(),
            i <= left@.len(),
            j <= right@.len(),
            out@.len() == i + j,
            arranged(keys@, out@),
            forall|k: int, a: int|
                0 <= k < out@.len() && i <= a < left@.len() ==> comes_before(
                    keys@,
                    #[trigger] out@[k] as int,
                    #[trigger] left@[a] as int,
                ),
            forall|k: int, b: int|
                0 <= k < out@.len() && j <= b < right@.len() ==> comes_before(
                    keys@,
                    #[trigger] out@[k] as int,
                    #[trigger] right@[b] as int,
                ),
            forall|k: int|
                0 <= k < out@.len() ==> left@.contains(#[trigger] out@[k]) || right@.contains(
                    out@[k],
                ),
            forall|a: int| 0 <= a < i ==> out@.contains(#[trigger] left@[a]),
            forall|b: int| 0 <= b < j ==> out@.contains(#[trigger] right@[b]),
        decreases left.len() - i + right.len() - j,
    {
        let from_left: bool = if i >= left.len() {
            false
        } else if j >= right.len() {
            true
        } else {
            keys[left[i]].key_le(&keys[right[j]])
        };
        let ghost before = out@;
        if from_left {
            let v: usize = left[i];
            proof {
                assert forall|b: int| j <= b < right@.len() implies comes_before(
                    keys@,
                    v as int,
                    #[trigger] right@[b] as int,
                ) by {
                    assert(comes_before(keys@, v as int, right@[j as int] as int));
                    if b > j {
                        lemma_before_transitive(
                            keys@,
                            v as int,
                            right@[j as int] as int,
                            right@[b] as int,
                        );
                    }
                }
                assert(left@.contains(v));
            }
            out.push(v);
            i += 1;
        } else {
            let v: usize = right[j];
            proof {
                assert forall|a: int| i <= a < left@.len() implies comes_before(
                    keys@,
                    v as int,
                    #[trigger] left@[a] as int,
                ) by {
                    lemma_before_total(keys@, v as int, left@[i as int] as int);
                    assert(comes_before(keys@, v as int, left@[i as int] as int));
                    if a > i {
                        lemma_before_transitive(
                            keys@,
                            v as int,
                            left@[i as int] as int,
                            left@[a] as int,
                        );
                    }
                }
                assert(right@.contains(v));
            }
            out.push(v);
            j += 1;
        }
        proof {
            assert(out@[before.len() as int] == out@.last());
            assert forall|x: usize| #[trigger] before.contains(x) implies out@.contains(x) by {
                let k = choose|k: int| 0 <= k < before.len() && before[k] == x;
                assert(out@[k] == x);
            }
        }
    }
    proof {
        assert(arranged(keys@, out@));
        assert forall|a: int, b: int| 0 <= a < b < out@.len() implies out@[a] != out@[b] by {
            assert(comes_before(keys@, out@[a] as int, out@[b] as int));
            lemma_before_total(keys@, out@[a] as int, out@[b] as int);
        }
        assert forall|k: usize| #[trigger] out@.contains(k) <==> lo <= k < hi by {
            if out@.contains(k) {
                let a = choose|a: int| 0 <= a < out@.len() && out@[a] == k;
                assert(left@.contains(out@[a]) || right@.contains(out@[a]));
            }
            if lo <= k < mid {
                assert(left@.contains(k));
                let a = choose|a: int| 0 <= a < left@.len() && left@[a] == k;
                assert(out@.contains(left@[a]));
            }
            if mid <= k < hi {
                assert(right@.contains(k));
                let b = choose|b: int| 0 <= b < right@.len() && right@[b] == k;
                assert(out@.contains(right@[b]));
            }
        }
    }
    out
}

/// Positions `lo` to `hi`, stably ordered by key.
fn order_range<K: Key>(keys: &Vec<K>, lo: usize, hi: usize) -> (p: Vec<usize>)
    requires
        lo <= hi <= keys@.len(),
    ensures
        arranged(keys@, p@),
        lists_range(p@, lo as int, hi as int),
    decreases hi - lo,
{
    if hi - lo <= 1 {
        let mut p: Vec<usize> = Vec::new();
        if lo < hi {
            p.push(lo);
            assert(p@[0] == lo);
        }
        p
    } else {
        let mid: usize = lo + (hi - lo) / 2;
        let left = order_range(keys, lo, mid);
        let right = order_range(keys, mid, hi);
        merge(keys, &left, &right, Ghost(lo as int), Ghost(mid as int), Ghost(hi as int))
    }
}

/// The positions of a list, stably ordered by key.
pub fn stable_order<K: Key>(keys: &Vec<K>) -> (p: Vec<usize>)
    ensures
        arranged(keys@, p@),
        lists_range(p@, 0, keys@.len() as int),
{
    order_range(keys, 0, keys.len())
}

/// Move the items at the given positions out of a list, in the order of the positions.
pub fn take_in_order<T>(items: Vec<T>, p: &Vec<usize>) -> (out: Vec<T>)
    requires
        p@.no_duplicates(),
        forall|i: int| 0 <= i < p@.len() ==> #[trigger] p@[i] < items@.len(),
    ensures
        out@.len() == p@.len(),
        forall|i: int| 0 <= i < p@.len() ==> #[trigger] out@[i] == items@[p@[i] as int],
{
    let ghost all = items@;
    let mut slots: Vec<Option<T>> = Vec::new();
    for item in it: items
        invariant
            it.seq() == all,
            slots@.len() == it.index(),
            forall|j: int| 0 <= j < slots@.len() ==> #[trigger] slots@[j] == Some(all[j]),
    {
        slots.push(Some(item));
    }
    let mut out: Vec<T> = Vec::new();
    for i in 0..p.len()
        invariant
            p@.no_duplicates(),
            slots@.len() == all.len(),
            forall|k: int| 0 <= k < p@.len() ==> #[trigger] p@[k] < all.len(),
            out@.len() == i,
            forall|k: int| 0 <= k < i ==> #[trigger] out@[k] == all[p@[k] as int],
            forall|k: int| i <= k < p@.len() ==> slots@[#[trigger] p@[k] as int] == Some(all[p@[k] as int]),
    {
        let at: usize = p[i];
        let taken: Option<T> = slots[at].take();
        if let Some(item) = taken {
            out.push(item);
        }
    }
    out
}

/// Taking every item of a list in some order keeps the items.
pub proof fn lemma_reordered<T>(items: Seq<T>, p: Seq<usize>, out: Seq<T>)
    requires
        lists_range(p, 0, items.len() as int),
        items.len() <= usize::MAX,
        out.len() == p.len(),
        forall|i: int| 0 <= i < p.len() ==> #[trigger] out[i] == items[p[i] as int],
    ensures
        out.to_multiset() == items.to_multiset(),
    decreases items.len(),
{
    broadcast use vstd::seq_lib::group_to_multiset_ensures;

    if items.len() == 0 {
        assert(out =~= items);
    } else {
        let n = items.len() - 1;
        assert(p.contains(n as usize));
        let k = choose|k: int| 0 <= k < p.len() && p[k] == n as usize;
        let p1 = p.remove(k);
        let out1 = out.remove(k);
        let less = items.drop_last();
        assert forall|v: usize| #[trigger] p1.contains(v) <==> v < n by {
            if p1.contains(v) {
                let i = choose|i: int| 0 <= i < p1.len() && p1[i] == v;
                let j = if i < k {
                    i
                } else {
                    i + 1
                };
                assert(p[j] == v);
                assert(p.contains(v));
                assert(p[j] != p[k]);
            }
            if v < n {
                assert(p.contains(v));
                let j = choose|j: int| 0 <= j < p.len() && p[j] == v;
                let i = if j < k {
                    j
                } else {
                    j - 1
                };
                assert(p1[i] == v);
            }
        }
        assert forall|i: int, j: int| 0 <= i < j < p1.len() implies p1[i] != p1[j] by {
            let a = if i < k {
                i
            } else {
                i + 1
            };
            let b = if j < k {
                j
            } else {
                j + 1
            };
            assert(p1[i] == p[a] && p1[j] == p[b] && a != b);
        }
        assert forall|i: int| 0 <= i < p1.len() implies #[trigger] out1[i] == less[p1[i] as int] by {
            let j = if i < k {
                i
            } else {
                i + 1
            };
            assert(out1[i] == out[j] && p1[i] == p[j]);
            assert(p1.contains(p1[i]));
        }
        lemma_reordered(less, p1, out1);
        assert(out.to_multiset() == out1.to_multiset().insert(out[k])) by {
            vstd::seq_lib::to_multiset_remove(out, k);
            assert(out.to_multiset().count(out[k]) > 0) by {
                assert(out.contains(out[k]));
            }
            assert(out.to_multiset().remove(out[k]).insert(out[k]) =~= out.to_multiset());
        }
        assert(items =~= less.push(items.last()));
        vstd::seq_lib::to_multiset_build(less, items.last());
    }
}

} // verus!
