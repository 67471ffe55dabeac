//! Ordering: the lexicographic order, a stable sort, and a sorted map.

use std::collections::VecDeque;

use vstd::prelude::*;

verus! {

// ---------------------------------------------------------------------------
// The lexicographic order
// ---------------------------------------------------------------------------

/// `a` comes before `b` in the lexicographic order.
pub open spec fn before(a: Seq<int>, b: Seq<int>) -> bool
    decreases a.len(),
{
    if b.len() == 0 {
        false
    } else if a.len() == 0 {
        true
    } else {
        a[0] < b[0] || (a[0] == b[0] && before(a.skip(1), b.skip(1)))
    }
}

pub proof fn lemma_before_irreflexive(a: Seq<int>)
    ensures
        !before(a, a),
    decreases a.len(),
{
    if a.len() > 0 {
        lemma_before_irreflexive(a.skip(1));
    }
}

pub proof fn lemma_before_transitive(a: Seq<int>, b: Seq<int>, c: Seq<int>)
    requires
        before(a, b),
        before(b, c),
    ensures
        before(a, c),
    decreases a.len(),
{
    if a.len() > 0 && a[0] == b[0] && b[0] == c[0] {
        lemma_before_transitive(a.skip(1), b.skip(1), c.skip(1));
    }
}

pub proof fn lemma_before_total(a: Seq<int>, b: Seq<int>)
    ensures
        before(a, b) || a == b || before(b, a),
    decreases a.len(),
{
    if a.len() > 0 && b.len() > 0 && a[0] == b[0] {
        lemma_before_total(a.skip(1), b.skip(1));
        if a.skip(1) == b.skip(1) {
            assert(a =~= seq![a[0]] + a.skip(1));
            assert(b =~= seq![b[0]] + b.skip(1));
        }
    } else if a.len() == 0 && b.len() == 0 {
        assert(a =~= b);
    }
}

/// If `a` is not before `b` and `c` is before `b`, then `c` is before `a`.
pub proof fn lemma_before_mixed(a: Seq<int>, b: Seq<int>, c: Seq<int>)
    requires
        !before(a, b),
        before(c, b),
    ensures
        before(c, a),
{
    lemma_before_total(a, b);
    if before(b, a) {
        lemma_before_transitive(c, b, a);
    }
}

/// A shared beginning does not matter.
pub proof fn lemma_before_skip(a: Seq<int>, b: Seq<int>, n: int)
    requires
        0 <= n <= a.len(),
        n <= b.len(),
        forall|k: int| 0 <= k < n ==> #[trigger] a[k] == b[k],
    ensures
        before(a, b) == before(a.skip(n), b.skip(n)),
    decreases n,
{
    if n == 0 {
        assert(a.skip(0) =~= a);
        assert(b.skip(0) =~= b);
    } else {
        assert(a[0] == b[0]);
        assert forall|k: int| 0 <= k < n - 1 implies #[trigger] a.skip(1)[k] == b.skip(1)[k] by {
            assert(a[k + 1] == b[k + 1]);
        }
        lemma_before_skip(a.skip(1), b.skip(1), n - 1);
        assert(a.skip(1).skip(n - 1) =~= a.skip(n));
        assert(b.skip(1).skip(n - 1) =~= b.skip(n));
    }
}

/// Numbers as a rank.
pub open spec fn ints(s: Seq<i128>) -> Seq<int> {
    s.map_values(|n: i128| n as int)
}

/// Bytes as a rank.
pub open spec fn byte_rank(s: Seq<u8>) -> Seq<int> {
    s.map_values(|b: u8| b as int)
}

/// The rank of a text: the order of its UTF-8 bytes.
pub open spec fn text_rank(s: Seq<char>) -> Seq<int> {
    byte_rank(crate::text::bytes_of(s))
}

pub proof fn lemma_text_rank_differs(a: Seq<char>, b: Seq<char>)
    ensures
        text_rank(a) == text_rank(b) ==> a == b,
{
    let x = crate::text::bytes_of(a);
    let y = crate::text::bytes_of(b);
    if text_rank(a) == text_rank(b) {
        assert(x.len() == text_rank(a).len() && y.len() == text_rank(b).len());
        assert forall|i: int| 0 <= i < x.len() implies x[i] == y[i] by {
            assert(text_rank(a)[i] == x[i]);
            assert(text_rank(b)[i] == y[i]);
        }
        assert(x =~= y);
        crate::text::lemma_bytes_differ(a, b);
    }
}

/// Whether `a` comes before `b` in the lexicographic order.
pub fn bytes_before(a: &[u8], b: &[u8]) -> (r: bool)
    ensures
        r == before(byte_rank(a@), byte_rank(b@)),
{
    let ghost x = byte_rank(a@);
    let ghost y = byte_rank(b@);
    let mut i: usize = 0;
    while i < a.len() && i < b.len()
        invariant
            i <= a.len(),
            i <= b.len(),
            x == byte_rank(a@),
            y == byte_rank(b@),
            forall|k: int| 0 <= k < i ==> #[trigger] x[k] == y[k],
        decreases a.len() - i,
    {
        if a[i] != b[i] {
            proof {
                lemma_before_skip(x, y, i as int);
                assert(x.skip(i as int)[0] == a@[i as int] as int);
                assert(y.skip(i as int)[0] == b@[i as int] as int);
            }
            return a[i] < b[i];
        }
        i = i + 1;
    }
    proof {
        lemma_before_skip(x, y, i as int);
    }
    i < b.len()
}

/// Whether `a` comes before `b` in the lexicographic order.
pub fn ranks_before(a: &Vec<i128>, b: &Vec<i128>) -> (r: bool)
    ensures
        r == before(ints(a@), ints(b@)),
{
    let ghost x = ints(a@);
    let ghost y = ints(b@);
    let mut i: usize = 0;
    while i < a.len() && i < b.len()
        invariant
            i <= a.len(),
            i <= b.len(),
            x == ints(a@),
            y == ints(b@),
            forall|k: int| 0 <= k < i ==> #[trigger] x[k] == y[k],
        decreases a.len() - i,
    {
        if a[i] != b[i] {
            proof {
                lemma_before_skip(x, y, i as int);
                assert(x.skip(i as int)[0] == a@[i as int] as int);
                assert(y.skip(i as int)[0] == b@[i as int] as int);
            }
            return a[i] < b[i];
        }
        i = i + 1;
    }
    proof {
        lemma_before_skip(x, y, i as int);
    }
    i < b.len()
}

/// A text as part of a longer rank: its bytes, each raised by one, and a zero
/// behind them.
pub open spec fn closed_rank(s: Seq<char>) -> Seq<int> {
    crate::text::bytes_of(s).map_values(|b: u8| b as int + 1).push(0)
}

/// What stands behind a closed rank can be told from it.
pub proof fn lemma_closed_rank(a: Seq<char>, b: Seq<char>, x: Seq<int>, y: Seq<int>)
    requires
        closed_rank(a) + x == closed_rank(b) + y,
    ensures
        a == b,
        x == y,
{
    let p = crate::text::bytes_of(a);
    let q = crate::text::bytes_of(b);
    let m = closed_rank(a) + x;
    let n = closed_rank(b) + y;
    if p.len() < q.len() {
        assert(m[p.len() as int] == 0);
        assert(n[p.len() as int] == q[p.len() as int] as int + 1);
    }
    if q.len() < p.len() {
        assert(n[q.len() as int] == 0);
        assert(m[q.len() as int] == p[q.len() as int] as int + 1);
    }
    assert forall|i: int| 0 <= i < p.len() implies p[i] == q[i] by {
        assert(m[i] == p[i] as int + 1);
        assert(n[i] == q[i] as int + 1);
    }
    assert(p =~= q);
    crate::text::lemma_bytes_differ(a, b);
    assert(m.len() == closed_rank(a).len() + x.len());
    assert(n.len() == closed_rank(b).len() + y.len());
    assert(x.len() == y.len());
    assert forall|i: int| 0 <= i < x.len() implies x[i] == y[i] by {
        assert(m[closed_rank(a).len() + i] == x[i]);
        assert(n[closed_rank(b).len() + i] == y[i]);
    }
    assert(x =~= y);
}

/// Appends a text as part of a longer rank.
pub fn push_closed_rank(out: &mut Vec<i128>, s: &str)
    ensures
        ints(final(out)@) == ints(old(out)@) + closed_rank(s@),
{
    let ghost start = ints(out@);
    let bytes = s.as_bytes();
    let ghost all = bytes@.map_values(|b: u8| b as int + 1);
    let mut i: usize = 0;
    assert(start + all.take(0) =~= start);
    while i < bytes.len()
        invariant
            i <= bytes.len(),
            all == bytes@.map_values(|b: u8| b as int + 1),
            ints(out@) == start + all.take(i as int),
        decreases bytes.len() - i,
    {
        let ghost done = ints(out@);
        out.push(bytes[i] as i128 + 1);
        assert(ints(out@) =~= done.push(all[i as int]));
        assert(start + all.take(i + 1) =~= (start + all.take(i as int)).push(all[i as int]));
        i = i + 1;
    }
    let ghost done = ints(out@);
    out.push(0);
    assert(ints(out@) =~= done.push(0));
    assert(all.take(i as int) =~= all);
    assert(ints(out@) =~= start + closed_rank(s@));
}

/// Appends a text at the end of a rank.
pub fn push_text_rank(out: &mut Vec<i128>, s: &str)
    ensures
        ints(final(out)@) == ints(old(out)@) + text_rank(s@),
{
    let ghost start = ints(out@);
    let bytes = s.as_bytes();
    let ghost all = byte_rank(bytes@);
    let mut i: usize = 0;
    assert(start + all.take(0) =~= start);
    while i < bytes.len()
        invariant
            i <= bytes.len(),
            all == byte_rank(bytes@),
            ints(out@) == start + all.take(i as int),
        decreases bytes.len() - i,
    {
        let ghost done = ints(out@);
        out.push(bytes[i] as i128);
        assert(ints(out@) =~= done.push(all[i as int]));
        assert(start + all.take(i + 1) =~= (start + all.take(i as int)).push(all[i as int]));
        i = i + 1;
    }
    assert(all.take(i as int) =~= all);
}

/// Whether the text `a` comes before the text `b`.
pub fn text_before(a: &str, b: &str) -> (r: bool)
    ensures
        r == before(text_rank(a@), text_rank(b@)),
{
    bytes_before(a.as_bytes(), b.as_bytes())
}

/// ASCII texts are ordered by their first characters that differ.
pub proof fn lemma_ascii_before(a: Seq<char>, b: Seq<char>, k: int)
    requires
        0 <= k < a.len(),
        k < b.len(),
        vstd::utf8::is_ascii_chars(a),
        vstd::utf8::is_ascii_chars(b),
        forall|i: int| 0 <= i < k ==> #[trigger] a[i] == b[i],
        (a[k] as int) < (b[k] as int),
    ensures
        before(text_rank(a), text_rank(b)),
{
    vstd::utf8::is_ascii_chars_encode_utf8(a);
    vstd::utf8::is_ascii_chars_encode_utf8(b);
    let x = text_rank(a);
    let y = text_rank(b);
    let p = crate::text::bytes_of(a);
    let q = crate::text::bytes_of(b);
    assert forall|i: int| 0 <= i < k implies #[trigger] x[i] == y[i] by {
        assert(p[i] == a[i] as u8);
        assert(q[i] == b[i] as u8);
        assert(a[i] == b[i]);
    }
    lemma_before_skip(x, y, k);
    assert(p[k] == a[k] as u8);
    assert(q[k] == b[k] as u8);
    assert(x.skip(k)[0] == p[k] as int);
    assert(y.skip(k)[0] == q[k] as int);
}

// ---------------------------------------------------------------------------
// A stable sort
// ---------------------------------------------------------------------------

/// `s` with `x` put behind the last element that does not come after it, where
/// `s` is in order.
pub open spec fn place<T>(s: Seq<T>, x: T, rank: spec_fn(T) -> Seq<int>) -> Seq<T>
    decreases s.len(),
{
    if s.len() == 0 {
        seq![x]
    } else if before(rank(x), rank(s[0])) {
        seq![x] + s
    } else {
        seq![s[0]] + place(s.skip(1), x, rank)
    }
}

/// The elements of `s` in the order of their ranks; elements of equal rank stay
/// in their order.
pub open spec fn sorted_by<T>(s: Seq<T>, rank: spec_fn(T) -> Seq<int>) -> Seq<T>
    decreases s.len(),
{
    if s.len() == 0 {
        Seq::empty()
    } else {
        place(sorted_by(s.drop_last(), rank), s.last(), rank)
    }
}

/// Two ordered sequences made into one; on equal rank `u` comes first.
pub open spec fn merged<T>(u: Seq<T>, v: Seq<T>, rank: spec_fn(T) -> Seq<int>) -> Seq<T>
    decreases u.len() + v.len(),
{
    if u.len() == 0 {
        v
    } else if v.len() == 0 {
        u
    } else if before(rank(v[0]), rank(u[0])) {
        seq![v[0]] + merged(u, v.skip(1), rank)
    } else {
        seq![u[0]] + merged(u.skip(1), v, rank)
    }
}

proof fn lemma_place_merged<T>(u: Seq<T>, v: Seq<T>, x: T, rank: spec_fn(T) -> Seq<int>)
    ensures
        place(merged(u, v, rank), x, rank) == merged(u, place(v, x, rank), rank),
    decreases u.len() + v.len(),
{
    let pv = place(v, x, rank);
    if u.len() == 0 {
    } else if v.len() == 0 {
        assert(pv =~= seq![x]);
        assert(pv.skip(1) =~= v);
        assert(pv[0] == x);
        if before(rank(x), rank(u[0])) {
            assert(merged(u, v, rank) == u);
        } else {
            lemma_place_merged(u.skip(1), v, x, rank);
            assert(merged(u.skip(1), v, rank) =~= u.skip(1));
        }
    } else if before(rank(v[0]), rank(u[0])) {
        let m = merged(u, v.skip(1), rank);
        assert((seq![v[0]] + m).skip(1) =~= m);
        if before(rank(x), rank(v[0])) {
            lemma_before_transitive(rank(x), rank(v[0]), rank(u[0]));
            assert(pv[0] == x);
            assert(pv.skip(1) =~= v);
        } else {
            lemma_place_merged(u, v.skip(1), x, rank);
            assert(pv[0] == v[0]);
            assert(pv.skip(1) =~= place(v.skip(1), x, rank));
        }
    } else {
        let m = merged(u.skip(1), v, rank);
        assert((seq![u[0]] + m).skip(1) =~= m);
        if before(rank(x), rank(u[0])) {
            lemma_before_mixed(rank(v[0]), rank(u[0]), rank(x));
            assert(pv[0] == x);
            assert(pv.skip(1) =~= v);
        } else {
            lemma_place_merged(u.skip(1), v, x, rank);
            if before(rank(x), rank(v[0])) {
                assert(pv[0] == x);
            } else {
                assert(pv[0] == v[0]);
            }
        }
    }
}

proof fn lemma_sorted_concat<T>(a: Seq<T>, b: Seq<T>, rank: spec_fn(T) -> Seq<int>)
    ensures
        sorted_by(a + b, rank) == merged(sorted_by(a, rank), sorted_by(b, rank), rank),
    decreases b.len(),
{
    if b.len() == 0 {
        assert(a + b =~= a);
    } else {
        lemma_sorted_concat(a, b.drop_last(), rank);
        assert((a + b).drop_last() =~= a + b.drop_last());
        lemma_place_merged(
            sorted_by(a, rank),
            sorted_by(b.drop_last(), rank),
            b.last(),
            rank,
        );
    }
}

fn merge<T, F: Fn(&T, &T) -> bool>(
    left: VecDeque<T>,
    right: VecDeque<T>,
    comes_before: &F,
    Ghost(rank): Ghost<spec_fn(T) -> Seq<int>>,
) -> (r: VecDeque<T>)
    requires
        forall|a: T, b: T| #[trigger] call_requires(*comes_before, (&a, &b)),
        forall|a: T, b: T, c: bool| #[trigger]
            call_ensures(*comes_before, (&a, &b), c) ==> c == before(rank(a), rank(b)),
    ensures
        r@ == merged(left@, right@, rank),
{
    let ghost whole = merged(left@, right@, rank);
    let mut left = left;
    let mut right = right;
    let mut out: VecDeque<T> = VecDeque::new();
    assert(out@ + merged(left@, right@, rank) =~= whole);
    while left.len() > 0 && right.len() > 0
        invariant
            out@ + merged(left@, right@, rank) == whole,
            forall|a: T, b: T| #[trigger] call_requires(*comes_before, (&a, &b)),
            forall|a: T, b: T, c: bool| #[trigger]
                call_ensures(*comes_before, (&a, &b), c) ==> c == before(rank(a), rank(b)),
        decreases left.len() + right.len(),
    {
        let ghost u = left@;
        let ghost v = right@;
        let ghost done = out@;
        if comes_before(&right[0], &left[0]) {
            if let Some(x) = right.pop_front() {
                out.push_back(x);
            }
            proof {
                assert(right@ =~= v.skip(1));
                assert(done + (seq![v[0]] + merged(u, v.skip(1), rank)) =~= out@ + merged(
                    left@,
                    right@,
                    rank,
                ));
            }
        } else {
            if let Some(x) = left.pop_front() {
                out.push_back(x);
            }
            proof {
                assert(left@ =~= u.skip(1));
                assert(done + (seq![u[0]] + merged(u.skip(1), v, rank)) =~= out@ + merged(
                    left@,
                    right@,
                    rank,
                ));
            }
        }
    }
    out.append(&mut left);
    out.append(&mut right);
    out
}

fn merge_sort<T, F: Fn(&T, &T) -> bool>(
    items: VecDeque<T>,
    comes_before: &F,
    Ghost(rank): Ghost<spec_fn(T) -> Seq<int>>,
) -> (r: VecDeque<T>)
    requires
        forall|a: T, b: T| #[trigger] call_requires(*comes_before, (&a, &b)),
        forall|a: T, b: T, c: bool| #[trigger]
            call_ensures(*comes_before, (&a, &b), c) ==> c == before(rank(a), rank(b)),
    ensures
        r@ == sorted_by(items@, rank),
    decreases items@.len(),
{
    let n = items.len();
    if n < 2 {
        proof {
            if n == 1 {
                assert(items@.drop_last() =~= Seq::empty());
                assert(sorted_by(items@.drop_last(), rank) =~= Seq::empty());
                assert(items@ =~= seq![items@.last()]);
            } else {
                assert(items@ =~= Seq::empty());
            }
        }
        return items;
    }
    let ghost all = items@;
    let half: usize = n / 2;
    let mut right = items;
    let mut left: VecDeque<T> = VecDeque::new();
    while left.len() < half
        invariant
            left@.len() <= half,
            half < all.len(),
            left@ + right@ == all,
        decreases half - left.len(),
    {
        let ghost v = right@;
        let ghost u = left@;
        if let Some(x) = right.pop_front() {
            left.push_back(x);
        }
        assert(left@ + right@ =~= u + v);
    }
    proof {
        lemma_sorted_concat(left@, right@, rank);
    }
    let left = merge_sort(left, comes_before, Ghost(rank));
    let right = merge_sort(right, comes_before, Ghost(rank));
    merge(left, right, comes_before, Ghost(rank))
}

/// Sorts by rank; elements of equal rank stay in their order.
pub(crate) fn stable_sort<T, F: Fn(&T, &T) -> bool>(
    items: Vec<T>,
    comes_before: F,
    Ghost(rank): Ghost<spec_fn(T) -> Seq<int>>,
) -> (r: Vec<T>)
    requires
        forall|a: T, b: T| #[trigger] call_requires(comes_before, (&a, &b)),
        forall|a: T, b: T, c: bool| #[trigger]
            call_ensures(comes_before, (&a, &b), c) ==> c == before(rank(a), rank(b)),
    ensures
        r@ == sorted_by(items@, rank),
{
    let ghost all = items@;
    let mut rest = items;
    let mut deque: VecDeque<T> = VecDeque::new();
    while rest.len() > 0
        invariant
            rest@ + deque@ == all,
        decreases rest.len(),
    {
        let ghost u = rest@;
        let ghost v = deque@;
        if let Some(x) = rest.pop() {
            deque.push_front(x);
        }
        assert(rest@ + deque@ =~= u + v);
    }
    assert(deque@ =~= all);
    let mut sorted = merge_sort(deque, &comes_before, Ghost(rank));
    let ghost result = sorted@;
    let mut out: Vec<T> = Vec::with_capacity(sorted.len());
    while sorted.len() > 0
        invariant
            out@ + sorted@ == result,
        decreases sorted.len(),
    {
        let ghost u = out@;
        let ghost v = sorted@;
        if let Some(x) = sorted.pop_front() {
            out.push(x);
        }
        assert(out@ + sorted@ =~= u + v);
    }
    assert(out@ =~= result);
    out
}

proof fn lemma_place_multiset<T>(s: Seq<T>, x: T, rank: spec_fn(T) -> Seq<int>)
    ensures
        place(s, x, rank).to_multiset() == s.to_multiset().insert(x),
        place(s, x, rank).len() == s.len() + 1,
    decreases s.len(),
{
    broadcast use vstd::seq_lib::group_to_multiset_ensures;

    if s.len() == 0 {
        assert(seq![x] =~= s.push(x));
    } else if before(rank(x), rank(s[0])) {
        vstd::seq_lib::lemma_multiset_commutative(seq![x], s);
        assert(seq![x] =~= Seq::<T>::empty().push(x));
        assert((seq![x] + s).to_multiset() =~= s.to_multiset().insert(x));
    } else {
        let t = s.skip(1);
        lemma_place_multiset(t, x, rank);
        vstd::seq_lib::lemma_multiset_commutative(seq![s[0]], place(t, x, rank));
        vstd::seq_lib::lemma_multiset_commutative(seq![s[0]], t);
        assert(s =~= seq![s[0]] + t);
        assert(place(s, x, rank).to_multiset() =~= s.to_multiset().insert(x));
    }
}

/// Sorting keeps every element, as often as it was there.
pub proof fn law_sort_keeps_everything<T>(s: Seq<T>, rank: spec_fn(T) -> Seq<int>)
    ensures
        sorted_by(s, rank).to_multiset() == s.to_multiset(),
        sorted_by(s, rank).len() == s.len(),
    decreases s.len(),
{
    broadcast use vstd::seq_lib::group_to_multiset_ensures;

    if s.len() == 0 {
        assert(s =~= Seq::empty());
    } else {
        law_sort_keeps_everything(s.drop_last(), rank);
        lemma_place_multiset(sorted_by(s.drop_last(), rank), s.last(), rank);
        assert(s =~= s.drop_last().push(s.last()));
    }
}

/// No element comes before one that stands to its left.
pub open spec fn in_order<T>(s: Seq<T>, rank: spec_fn(T) -> Seq<int>) -> bool {
    forall|i: int, j: int|
        0 <= i < j < s.len() ==> !before(rank(#[trigger] s[j]), rank(#[trigger] s[i]))
}

proof fn lemma_place_elements<T>(s: Seq<T>, x: T, rank: spec_fn(T) -> Seq<int>)
    ensures
        forall|i: int|
            0 <= i < place(s, x, rank).len() ==> s.contains(#[trigger] place(s, x, rank)[i])
                || place(s, x, rank)[i] == x,
    decreases s.len(),
{
    if s.len() == 0 {
    } else if before(rank(x), rank(s[0])) {
        assert forall|i: int| 0 <= i < (seq![x] + s).len() implies s.contains(
            #[trigger] (seq![x] + s)[i],
        ) || (seq![x] + s)[i] == x by {
            if i > 0 {
                assert((seq![x] + s)[i] == s[i - 1]);
            }
        }
    } else {
        let t = s.skip(1);
        let p = place(t, x, rank);
        lemma_place_elements(t, x, rank);
        assert forall|i: int| 0 <= i < (seq![s[0]] + p).len() implies s.contains(
            #[trigger] (seq![s[0]] + p)[i],
        ) || (seq![s[0]] + p)[i] == x by {
            if i > 0 {
                assert((seq![s[0]] + p)[i] == p[i - 1]);
                if t.contains(p[i - 1]) {
                    let k = choose|k: int| 0 <= k < t.len() && t[k] == p[i - 1];
                    assert(s[k + 1] == p[i - 1]);
                }
            } else {
                assert(s.contains(s[0]));
            }
        }
    }
}

proof fn lemma_place_in_order<T>(s: Seq<T>, x: T, rank: spec_fn(T) -> Seq<int>)
    requires
        in_order(s, rank),
    ensures
        in_order(place(s, x, rank), rank),
    decreases s.len(),
{
    if s.len() == 0 {
    } else if before(rank(x), rank(s[0])) {
        let r = seq![x] + s;
        assert forall|i: int, j: int| 0 <= i < j < r.len() implies !before(
            rank(#[trigger] r[j]),
            rank(#[trigger] r[i]),
        ) by {
            assert(r[j] == s[j - 1]);
            if i > 0 {
                assert(r[i] == s[i - 1]);
            } else {
                if before(rank(s[j - 1]), rank(x)) {
                    lemma_before_transitive(rank(s[j - 1]), rank(x), rank(s[0]));
                    if j - 1 == 0 {
                        lemma_before_irreflexive(rank(s[0]));
                    }
                }
            }
        }
    } else {
        let t = s.skip(1);
        assert forall|i: int, j: int| 0 <= i < j < t.len() implies !before(
            rank(#[trigger] t[j]),
            rank(#[trigger] t[i]),
        ) by {
            assert(t[j] == s[j + 1] && t[i] == s[i + 1]);
        }
        lemma_place_in_order(t, x, rank);
        lemma_place_elements(t, x, rank);
        let p = place(t, x, rank);
        let r = seq![s[0]] + p;
        assert forall|i: int, j: int| 0 <= i < j < r.len() implies !before(
            rank(#[trigger] r[j]),
            rank(#[trigger] r[i]),
        ) by {
            assert(r[j] == p[j - 1]);
            if i > 0 {
                assert(r[i] == p[i - 1]);
            } else if t.contains(p[j - 1]) {
                let k = choose|k: int| 0 <= k < t.len() && t[k] == p[j - 1];
                assert(s[k + 1] == p[j - 1]);
            }
        }
    }
}

/// Sorting puts the elements in order.
pub proof fn law_sort_orders<T>(s: Seq<T>, rank: spec_fn(T) -> Seq<int>)
    ensures
        in_order(sorted_by(s, rank), rank),
    decreases s.len(),
{
    if s.len() > 0 {
        law_sort_orders(s.drop_last(), rank);
        lemma_place_in_order(sorted_by(s.drop_last(), rank), s.last(), rank);
    }
}

/// The elements of `s` whose rank is `r`, in their order.
pub open spec fn of_rank<T>(s: Seq<T>, rank: spec_fn(T) -> Seq<int>, r: Seq<int>) -> Seq<T>
    decreases s.len(),
{
    if s.len() == 0 {
        Seq::empty()
    } else if rank(s.last()) == r {
        of_rank(s.drop_last(), rank, r).push(s.last())
    } else {
        of_rank(s.drop_last(), rank, r)
    }
}

proof fn lemma_of_rank_concat<T>(
    a: Seq<T>,
    b: Seq<T>,
    rank: spec_fn(T) -> Seq<int>,
    r: Seq<int>,
)
    ensures
        of_rank(a + b, rank, r) == of_rank(a, rank, r) + of_rank(b, rank, r),
    decreases b.len(),
{
    if b.len() == 0 {
        assert(a + b =~= a);
        assert(of_rank(a, rank, r) + of_rank(b, rank, r) =~= of_rank(a, rank, r));
    } else {
        assert((a + b).drop_last() =~= a + b.drop_last());
        lemma_of_rank_concat(a, b.drop_last(), rank, r);
        assert(of_rank(a + b, rank, r) =~= of_rank(a, rank, r) + of_rank(b, rank, r));
    }
}

proof fn lemma_of_rank_none<T>(s: Seq<T>, rank: spec_fn(T) -> Seq<int>, r: Seq<int>)
    requires
        forall|i: int| 0 <= i < s.len() ==> rank(#[trigger] s[i]) != r,
    ensures
        of_rank(s, rank, r) == Seq::<T>::empty(),
    decreases s.len(),
{
    if s.len() > 0 {
        lemma_of_rank_none(s.drop_last(), rank, r);
    }
}

proof fn lemma_place_of_rank<T>(
    s: Seq<T>,
    x: T,
    rank: spec_fn(T) -> Seq<int>,
    r: Seq<int>,
)
    requires
        in_order(s, rank),
    ensures
        of_rank(place(s, x, rank), rank, r) == of_rank(s.push(x), rank, r),
    decreases s.len(),
{
    if s.len() == 0 {
        assert(s.push(x) =~= seq![x]);
    } else if before(rank(x), rank(s[0])) {
        lemma_of_rank_concat(seq![x], s, rank, r);
        assert(s.push(x) =~= s + seq![x]);
        lemma_of_rank_concat(s, seq![x], rank, r);
        if rank(x) == r {
            assert forall|i: int| 0 <= i < s.len() implies rank(#[trigger] s[i]) != r by {
                if rank(s[i]) == rank(x) {
                    if i == 0 {
                        lemma_before_irreflexive(rank(x));
                    }
                }
            }
            lemma_of_rank_none(s, rank, r);
        } else {
            lemma_of_rank_none(seq![x], rank, r);
        }
        assert(of_rank(seq![x], rank, r) + of_rank(s, rank, r) =~= of_rank(s, rank, r) + of_rank(
            seq![x],
            rank,
            r,
        ));
    } else {
        let t = s.skip(1);
        assert forall|i: int, j: int| 0 <= i < j < t.len() implies !before(
            rank(#[trigger] t[j]),
            rank(#[trigger] t[i]),
        ) by {
            assert(t[j] == s[j + 1] && t[i] == s[i + 1]);
        }
        lemma_place_of_rank(t, x, rank, r);
        lemma_of_rank_concat(seq![s[0]], place(t, x, rank), rank, r);
        lemma_of_rank_concat(seq![s[0]], t.push(x), rank, r);
        assert(seq![s[0]] + t.push(x) =~= s.push(x));
    }
}

/// Sorting is stable: elements of equal rank keep their order.
pub proof fn law_sort_is_stable<T>(
    s: Seq<T>,
    rank: spec_fn(T) -> Seq<int>,
    r: Seq<int>,
)
    ensures
        of_rank(sorted_by(s, rank), rank, r) == of_rank(s, rank, r),
    decreases s.len(),
{
    if s.len() > 0 {
        let t = s.drop_last();
        law_sort_is_stable(t, rank, r);
        law_sort_orders(t, rank);
        lemma_place_of_rank(sorted_by(t, rank), s.last(), rank, r);
        assert(sorted_by(t, rank).push(s.last()).drop_last() =~= sorted_by(t, rank));
    }
}

/// Sorting commutes with a function that keeps the ranks.
pub proof fn lemma_sorted_map<T, U>(
    s: Seq<T>,
    f: spec_fn(T) -> U,
    rank: spec_fn(T) -> Seq<int>,
    other: spec_fn(U) -> Seq<int>,
)
    requires
        forall|x: T| rank(x) == other(#[trigger] f(x)),
    ensures
        sorted_by(s, rank).map_values(f) == sorted_by(s.map_values(f), other),
    decreases s.len(),
{
    if s.len() == 0 {
        assert(sorted_by(s, rank).map_values(f) =~= sorted_by(s.map_values(f), other));
    } else {
        let t = s.drop_last();
        lemma_sorted_map(t, f, rank, other);
        assert(s.map_values(f).drop_last() =~= t.map_values(f));
        lemma_place_map(sorted_by(t, rank), s.last(), f, rank, other);
    }
}

proof fn lemma_place_map<T, U>(
    s: Seq<T>,
    x: T,
    f: spec_fn(T) -> U,
    rank: spec_fn(T) -> Seq<int>,
    other: spec_fn(U) -> Seq<int>,
)
    requires
        forall|x: T| rank(x) == other(#[trigger] f(x)),
    ensures
        place(s, x, rank).map_values(f) == place(s.map_values(f), f(x), other),
    decreases s.len(),
{
    let m = s.map_values(f);
    assert(rank(x) == other(f(x)));
    if s.len() == 0 {
        assert(seq![x].map_values(f) =~= seq![f(x)]);
    } else {
        assert(rank(s[0]) == other(f(s[0])));
        assert(m[0] == f(s[0]));
        if before(rank(x), rank(s[0])) {
            assert((seq![x] + s).map_values(f) =~= seq![f(x)] + m);
        } else {
            let t = s.skip(1);
            lemma_place_map(t, x, f, rank, other);
            assert(m.skip(1) =~= t.map_values(f));
            assert((seq![s[0]] + place(t, x, rank)).map_values(f) =~= seq![m[0]] + place(
                m.skip(1),
                f(x),
                other,
            ));
        }
    }
}

// ---------------------------------------------------------------------------
// What the order means
// ---------------------------------------------------------------------------

/// Two sequences agree before `k`, where the first ends or has the smaller
/// element.
pub open spec fn parts_at(a: Seq<int>, b: Seq<int>, k: int) -> bool {
    &&& 0 <= k <= a.len()
    &&& k < b.len()
    &&& forall|i: int| 0 <= i < k ==> #[trigger] a[i] == b[i]
    &&& k == a.len() || a[k] < b[k]
}

/// The order is that of a dictionary: the first difference decides, and a
/// beginning comes before what it is the beginning of.
pub proof fn law_the_first_difference_decides(a: Seq<int>, b: Seq<int>)
    ensures
        before(a, b) <==> exists|k: int| #[trigger] parts_at(a, b, k),
    decreases a.len(),
{
    if b.len() > 0 && a.len() == 0 {
        assert(parts_at(a, b, 0));
    }
    if b.len() > 0 && a.len() > 0 {
        let x = a.skip(1);
        let y = b.skip(1);
        law_the_first_difference_decides(x, y);
        if a[0] < b[0] {
            assert(parts_at(a, b, 0));
        } else if before(a, b) {
            let k = choose|k: int| #[trigger] parts_at(x, y, k);
            assert forall|i: int| 0 <= i < k + 1 implies #[trigger] a[i] == b[i] by {
                if i > 0 {
                    assert(x[i - 1] == y[i - 1]);
                }
            }
            assert(parts_at(a, b, k + 1));
        }
        if exists|k: int| #[trigger] parts_at(a, b, k) {
            let k = choose|k: int| #[trigger] parts_at(a, b, k);
            if k > 0 {
                assert(a[0] == b[0]);
                assert forall|i: int| 0 <= i < k - 1 implies #[trigger] x[i] == y[i] by {
                    assert(a[i + 1] == b[i + 1]);
                }
                assert(parts_at(x, y, k - 1));
            }
        }
    }
}

/// A text comes before another in the order of their UTF-8 bytes.
pub open spec fn text_precedes(a: Seq<char>, b: Seq<char>) -> bool {
    let x = vstd::utf8::encode_utf8(a);
    let y = vstd::utf8::encode_utf8(b);
    exists|k: int|
        0 <= k <= x.len() && k < y.len() && #[trigger] x.take(k) == y.take(k) && (k == x.len()
            || x[k] < y[k])
}

/// Texts are ordered by their UTF-8 bytes.
pub proof fn law_texts_are_ordered_by_their_bytes(a: Seq<char>, b: Seq<char>)
    ensures
        before(text_rank(a), text_rank(b)) <==> text_precedes(a, b),
{
    let x = vstd::utf8::encode_utf8(a);
    let y = vstd::utf8::encode_utf8(b);
    let m = text_rank(a);
    let n = text_rank(b);
    law_the_first_difference_decides(m, n);
    if before(m, n) {
        let k = choose|k: int| #[trigger] parts_at(m, n, k);
        assert forall|i: int| 0 <= i < k implies x[i] == y[i] by {
            assert(m[i] == n[i]);
        }
        assert(x.take(k) =~= y.take(k));
    }
    if text_precedes(a, b) {
        let k = choose|k: int|
            0 <= k <= x.len() && k < y.len() && #[trigger] x.take(k) == y.take(k) && (k == x.len()
                || x[k] < y[k]);
        assert forall|i: int| 0 <= i < k implies #[trigger] m[i] == n[i] by {
            assert(x.take(k)[i] == y.take(k)[i]);
        }
        assert(parts_at(m, n, k));
    }
}

/// Of two different texts one comes first.
pub proof fn law_different_texts_are_ordered(a: Seq<char>, b: Seq<char>)
    ensures
        a == b || text_precedes(a, b) || text_precedes(b, a),
        !(text_precedes(a, b) && text_precedes(b, a)),
        !text_precedes(a, a),
{
    law_texts_are_ordered_by_their_bytes(a, b);
    law_texts_are_ordered_by_their_bytes(b, a);
    law_texts_are_ordered_by_their_bytes(a, a);
    lemma_before_total(text_rank(a), text_rank(b));
    lemma_text_rank_differs(a, b);
    lemma_before_irreflexive(text_rank(a));
    if before(text_rank(a), text_rank(b)) && before(text_rank(b), text_rank(a)) {
        lemma_before_transitive(text_rank(a), text_rank(b), text_rank(a));
    }
}

proof fn lemma_closed_before(a: Seq<char>, b: Seq<char>, x: Seq<int>, y: Seq<int>)
    requires
        text_precedes(a, b),
    ensures
        before(closed_rank(a) + x, closed_rank(b) + y),
{
    let p = vstd::utf8::encode_utf8(a);
    let q = vstd::utf8::encode_utf8(b);
    let m = closed_rank(a) + x;
    let n = closed_rank(b) + y;
    let k = choose|k: int|
        0 <= k <= p.len() && k < q.len() && #[trigger] p.take(k) == q.take(k) && (k == p.len()
            || p[k] < q[k]);
    assert forall|i: int| 0 <= i < k implies #[trigger] m[i] == n[i] by {
        assert(p.take(k)[i] == q.take(k)[i]);
        assert(m[i] == p[i] as int + 1);
        assert(n[i] == q[i] as int + 1);
    }
    assert(n[k] == q[k] as int + 1);
    if k == p.len() {
        assert(m[k] == 0);
    } else {
        assert(m[k] == p[k] as int + 1);
    }
    law_the_first_difference_decides(m, n);
    assert(parts_at(m, n, k));
}

/// Where ranks start with texts, the texts decide, and what follows them decides
/// only between the same text.
pub proof fn law_a_text_in_front_decides_first(
    a: Seq<char>,
    b: Seq<char>,
    x: Seq<int>,
    y: Seq<int>,
)
    ensures
        before(closed_rank(a) + x, closed_rank(b) + y) <==> text_precedes(a, b) || (a == b
            && before(x, y)),
{
    let m = closed_rank(a) + x;
    let n = closed_rank(b) + y;
    law_different_texts_are_ordered(a, b);
    if text_precedes(a, b) {
        lemma_closed_before(a, b, x, y);
    } else if a == b {
        let k = closed_rank(a).len() as int;
        lemma_before_skip(m, n, k);
        assert(m.skip(k) =~= x);
        assert(n.skip(k) =~= y);
    } else {
        lemma_closed_before(b, a, y, x);
        if before(m, n) {
            lemma_before_transitive(m, n, m);
            lemma_before_irreflexive(m);
        }
    }
}

} // verus!
