//! The lexicographic order on byte strings (the order of `Ord` on `[u8]`), strictly sorted
//! sequences of byte strings, and search in a sorted vector.

use crate::seq_facts::lemma_insert_to_set;
use vstd::prelude::*;

verus! {

/// `a` comes strictly before `b` in lexicographic order: at the first position where they
/// differ `a` holds the smaller byte, or `a` is a proper prefix of `b`.
pub open spec fn lex_lt(a: Seq<u8>, b: Seq<u8>) -> bool
    decreases a.len(),
{
    if a.len() == 0 {
        b.len() > 0
    } else if b.len() == 0 {
        false
    } else if a[0] != b[0] {
        a[0] < b[0]
    } else {
        lex_lt(a.drop_first(), b.drop_first())
    }
}

/// No byte string comes before itself.
pub proof fn lemma_lex_irreflexive(a: Seq<u8>)
    ensures
        !lex_lt(a, a),
    decreases a.len(),
{
    if a.len() > 0 {
        lemma_lex_irreflexive(a.drop_first());
    }
}

/// Of two byte strings at most one comes before the other.
pub proof fn lemma_lex_asymmetric(a: Seq<u8>, b: Seq<u8>)
    ensures
        !(lex_lt(a, b) && lex_lt(b, a)),
    decreases a.len(),
{
    if a.len() > 0 && b.len() > 0 && a[0] == b[0] {
        lemma_lex_asymmetric(a.drop_first(), b.drop_first());
    }
}

/// The lexicographic order is transitive.
pub proof fn lemma_lex_transitive(a: Seq<u8>, b: Seq<u8>, c: Seq<u8>)
    requires
        lex_lt(a, b),
        lex_lt(b, c),
    ensures
        lex_lt(a, c),
    decreases a.len(),
{
    if a.len() > 0 && b.len() > 0 && c.len() > 0 && a[0] == b[0] && b[0] == c[0] {
        lemma_lex_transitive(a.drop_first(), b.drop_first(), c.drop_first());
    }
}

/// Two different byte strings are ordered one way or the other.
pub proof fn lemma_lex_total(a: Seq<u8>, b: Seq<u8>)
    ensures
        a == b || lex_lt(a, b) || lex_lt(b, a),
    decreases a.len(),
{
    if a.len() > 0 && b.len() > 0 && a[0] == b[0] {
        lemma_lex_total(a.drop_first(), b.drop_first());
        if a.drop_first() == b.drop_first() {
            assert(a =~= b) by {
                assert(a.len() == a.drop_first().len() + 1);
                assert(b.len() == b.drop_first().len() + 1);
                assert forall|i: int| 0 <= i < a.len() implies a[i] == b[i] by {
                    if i > 0 {
                        assert(a.drop_first()[i - 1] == b.drop_first()[i - 1]);
                        assert(a[i] == a.drop_first()[i - 1]);
                        assert(b[i] == b.drop_first()[i - 1]);
                    }
                }
            }
        }
    } else if a.len() == 0 && b.len() == 0 {
        assert(a =~= b);
    }
}

/// Comparing two byte strings after a common prefix of length `i` is comparing the rest.
proof fn lemma_lex_skip(a: Seq<u8>, b: Seq<u8>, i: int)
    requires
        0 <= i <= a.len(),
        i <= b.len(),
        forall|j: int| 0 <= j < i ==> a[j] == b[j],
    ensures
        lex_lt(a, b) == lex_lt(a.skip(i), b.skip(i)),
    decreases i,
{
    if i > 0 {
        lemma_lex_skip(a.drop_first(), b.drop_first(), i - 1);
        assert(a.drop_first().skip(i - 1) =~= a.skip(i));
        assert(b.drop_first().skip(i - 1) =~= b.skip(i));
    } else {
        assert(a.skip(0) =~= a);
        assert(b.skip(0) =~= b);
    }
}

/// The outcome of comparing two byte strings.
#[derive(Clone, Copy, Debug, PartialEq, Eq)]
pub enum Order {
    Less,
    Equal,
    Greater,
}

/// Compares two byte strings lexicographically.
pub fn compare_bytes(a: &[u8], b: &[u8]) -> (o: Order)
    ensures
        (o == Order::Less) <==> lex_lt(a@, b@),
        (o == Order::Equal) <==> a@ == b@,
        (o == Order::Greater) <==> lex_lt(b@, a@),
        (o == Order::Less) <==> exists|i: int|
            #![trigger a@.take(i), b@.take(i)]
            0 <= i <= a@.len() && i <= b@.len() && a@.take(i) == b@.take(i) && ((i == a@.len()
                && i < b@.len()) || (i < a@.len() && i < b@.len() && (a@[i] as int) < (
            b@[i] as int))),
        (o == Order::Greater) <==> exists|i: int|
            #![trigger a@.take(i), b@.take(i)]
            0 <= i <= a@.len() && i <= b@.len() && a@.take(i) == b@.take(i) && ((i == b@.len()
                && i < a@.len()) || (i < a@.len() && i < b@.len() && (b@[i] as int) < (
            a@[i] as int))),
{
    proof {
        lemma_lex_lt_first_difference(a@, b@);
        lemma_lex_lt_first_difference(b@, a@);
        lemma_lex_irreflexive(a@);
        lemma_lex_asymmetric(a@, b@);
    }
    let mut i: usize = 0;
    while i < a.len() && i < b.len()
        invariant
            i <= a@.len(),
            i <= b@.len(),
            forall|j: int| 0 <= j < i ==> a@[j] == b@[j],
        decreases a@.len() - i,
    {
        if a[i] != b[i] {
            proof {
                lemma_lex_lt_first_difference(a@, b@);
                lemma_lex_lt_first_difference(b@, a@);
                lemma_lex_skip(a@, b@, i as int);
                lemma_lex_skip(b@, a@, i as int);
            }
            if a[i] < b[i] {
                return Order::Less;
            } else {
                return Order::Greater;
            }
        }
        i = i + 1;
    }
    proof {
        lemma_lex_lt_first_difference(a@, b@);
        lemma_lex_lt_first_difference(b@, a@);
        lemma_lex_skip(a@, b@, i as int);
        lemma_lex_skip(b@, a@, i as int);
    }
    if i < b.len() {
        Order::Less
    } else if i < a.len() {
        Order::Greater
    } else {
        assert(a@ =~= b@);
        Order::Equal
    }
}

/// Every element of `s` comes strictly before every later one.
pub open spec fn strictly_sorted(s: Seq<Seq<u8>>) -> bool {
    forall|i: int, j: int| 0 <= i < j < s.len() ==> lex_lt(#[trigger] s[i], #[trigger] s[j])
}

/// The byte strings that a vector of byte vectors holds.
pub open spec fn byte_strings(v: Seq<Vec<u8>>) -> Seq<Seq<u8>> {
    v.map_values(|x: Vec<u8>| x@)
}

/// Binary search of `x` in a strictly sorted vector: the position where `x` stands, or
/// where it would be inserted to keep the vector sorted, and whether it is there.
pub fn locate(items: &Vec<Vec<u8>>, x: &[u8]) -> (r: (bool, usize))
    requires
        strictly_sorted(byte_strings(items@)),
    ensures
        r.1 <= items@.len(),
        forall|k: int| 0 <= k < r.1 ==> lex_lt(#[trigger] byte_strings(items@)[k], x@),
        r.0 ==> r.1 < items@.len() && byte_strings(items@)[r.1 as int] == x@,
        !r.0 ==> forall|k: int|
            r.1 <= k < items@.len() ==> lex_lt(x@, #[trigger] byte_strings(items@)[k]),
{
    let ghost s = byte_strings(items@);
    let mut lo: usize = 0;
    let mut hi: usize = items.len();
    while lo < hi
        invariant
            s == byte_strings(items@),
            strictly_sorted(s),
            lo <= hi <= items@.len(),
            forall|k: int| 0 <= k < lo ==> lex_lt(#[trigger] s[k], x@),
            forall|k: int| hi <= k < items@.len() ==> lex_lt(x@, #[trigger] s[k]),
        decreases hi - lo,
    {
        let mid = lo + (hi - lo) / 2;
        assert(s[mid as int] == items@[mid as int]@);
        match compare_bytes(items[mid].as_slice(), x) {
            Order::Less => {
                assert forall|k: int| 0 <= k < mid + 1 implies lex_lt(#[trigger] s[k], x@) by {
                    if k < mid {
                        lemma_lex_transitive(s[k], s[mid as int], x@);
                    }
                }
                lo = mid + 1;
            },
            Order::Equal => {
                return (true, mid);
            },
            Order::Greater => {
                assert forall|k: int| mid <= k < items@.len() implies lex_lt(x@, #[trigger] s[k]) by {
                    if k > mid {
                        lemma_lex_transitive(x@, s[mid as int], s[k]);
                    }
                }
                hi = mid;
            },
        }
    }
    (false, lo)
}

/// Inserting `x` at a position that separates the smaller elements from the larger ones
/// keeps a sequence strictly sorted.
pub proof fn lemma_sorted_insert(s: Seq<Seq<u8>>, i: int, x: Seq<u8>)
    requires
        strictly_sorted(s),
        0 <= i <= s.len(),
        forall|k: int| 0 <= k < i ==> lex_lt(#[trigger] s[k], x),
        forall|k: int| i <= k < s.len() ==> lex_lt(x, #[trigger] s[k]),
    ensures
        strictly_sorted(s.insert(i, x)),
{
    let t = s.insert(i, x);
    assert forall|a: int, b: int| 0 <= a < b < t.len() implies lex_lt(#[trigger] t[a], #[trigger] t[b]) by {
        if a < i {
            if b < i {
                assert(lex_lt(s[a], s[b]));
            } else if b == i {
            } else {
                assert(lex_lt(s[a], s[b - 1]));
            }
        } else if a == i {
            assert(t[b] == s[b - 1]);
        } else {
            assert(lex_lt(s[a - 1], s[b - 1]));
        }
    }
}

/// A strictly sorted sequence holds no element twice.
pub proof fn lemma_sorted_no_duplicates(s: Seq<Seq<u8>>)
    requires
        strictly_sorted(s),
    ensures
        s.no_duplicates(),
{
    assert forall|i: int, j: int| 0 <= i < s.len() && 0 <= j < s.len() && i != j implies s[i] != s[j] by {
        if i < j {
            assert(lex_lt(s[i], s[j]));
            lemma_lex_irreflexive(s[i]);
        } else {
            assert(lex_lt(s[j], s[i]));
            lemma_lex_irreflexive(s[i]);
        }
    }
}

/// Two strictly sorted sequences with the same elements are the same sequence.
pub proof fn lemma_sorted_unique(s: Seq<Seq<u8>>, t: Seq<Seq<u8>>)
    requires
        strictly_sorted(s),
        strictly_sorted(t),
        s.to_set() == t.to_set(),
    ensures
        s == t,
    decreases s.len(),
{
    if s.len() == 0 {
        if t.len() > 0 {
            assert(t.to_set().contains(t[0]));
        }
        assert(s =~= t);
    } else {
        assert(s.to_set().contains(s[0]));
        assert(t.len() > 0);
        assert(t.to_set().contains(t[0]));
        let j = choose|j: int| 0 <= j < t.len() && t[j] == s[0];
        let k = choose|k: int| 0 <= k < s.len() && s[k] == t[0];
        if j > 0 {
            assert(lex_lt(t[0], t[j]));
            if k > 0 {
                assert(lex_lt(s[0], s[k]));
                lemma_lex_asymmetric(s[0], t[0]);
            } else {
                lemma_lex_irreflexive(s[0]);
            }
        }
        assert(s[0] == t[0]);
        let s1 = s.drop_first();
        let t1 = t.drop_first();
        assert forall|x: Seq<u8>| s1.to_set().contains(x) implies t1.to_set().contains(x) by {
            let a = choose|a: int| 0 <= a < s1.len() && s1[a] == x;
            assert(s.to_set().contains(x));
            let b = choose|b: int| 0 <= b < t.len() && t[b] == x;
            assert(lex_lt(s[0], s[a + 1]));
            if b == 0 {
                lemma_lex_irreflexive(x);
            }
            assert(t1[b - 1] == x);
        }
        assert forall|x: Seq<u8>| t1.to_set().contains(x) implies s1.to_set().contains(x) by {
            let a = choose|a: int| 0 <= a < t1.len() && t1[a] == x;
            assert(t.to_set().contains(x));
            let b = choose|b: int| 0 <= b < s.len() && s[b] == x;
            assert(lex_lt(t[0], t[a + 1]));
            if b == 0 {
                lemma_lex_irreflexive(x);
            }
            assert(s1[b - 1] == x);
        }
        assert(s1.to_set() =~= t1.to_set());
        lemma_sorted_unique(s1, t1);
        assert(s =~= t) by {
            assert(s.len() == s1.len() + 1);
            assert(t.len() == t1.len() + 1);
            assert forall|i: int| 0 <= i < s.len() implies s[i] == t[i] by {
                if i > 0 {
                    assert(s[i] == s1[i - 1]);
                    assert(t[i] == t1[i - 1]);
                }
            }
        }
    }
}

/// The elements of a set of byte strings listed in strictly increasing order.
pub open spec fn sorted_listing(s: Set<Seq<u8>>) -> Seq<Seq<u8>> {
    choose|l: Seq<Seq<u8>>| strictly_sorted(l) && l.to_set() == s
}

/// A strictly sorted sequence is the sorted listing of its own elements.
pub proof fn lemma_sorted_listing_of(l: Seq<Seq<u8>>)
    requires
        strictly_sorted(l),
    ensures
        sorted_listing(l.to_set()) == l,
{
    let s = l.to_set();
    assert(strictly_sorted(l) && l.to_set() == s);
    let m = sorted_listing(s);
    lemma_sorted_unique(m, l);
}

/// A byte string missing from a strictly sorted sequence has a place in it: everything
/// before that place is smaller and everything from it on is larger.
pub proof fn lemma_insertion_point(l: Seq<Seq<u8>>, x: Seq<u8>) -> (i: int)
    requires
        strictly_sorted(l),
        !l.contains(x),
    ensures
        0 <= i <= l.len(),
        forall|k: int| 0 <= k < i ==> lex_lt(#[trigger] l[k], x),
        forall|k: int| i <= k < l.len() ==> lex_lt(x, #[trigger] l[k]),
    decreases l.len(),
{
    if l.len() == 0 {
        0
    } else {
        let init = l.drop_last();
        assert(!init.contains(x)) by {
            if init.contains(x) {
                let k = choose|k: int| 0 <= k < init.len() && init[k] == x;
                assert(l[k] == x);
            }
        }
        let j = lemma_insertion_point(init, x);
        let last = l[l.len() - 1];
        lemma_lex_total(last, x);
        assert(last != x) by {
            assert(l.contains(last) ==> true);
            if last == x {
                assert(l[l.len() - 1] == x);
            }
        }
        if lex_lt(last, x) {
            assert forall|k: int| 0 <= k < l.len() implies lex_lt(#[trigger] l[k], x) by {
                if k < l.len() - 1 {
                    assert(lex_lt(l[k], last));
                    lemma_lex_transitive(l[k], last, x);
                }
            }
            l.len() as int
        } else {
            assert forall|k: int| 0 <= k < j implies lex_lt(#[trigger] l[k], x) by {
                assert(l[k] == init[k]);
            }
            assert forall|k: int| j <= k < l.len() implies lex_lt(x, #[trigger] l[k]) by {
                if k < l.len() - 1 {
                    assert(l[k] == init[k]);
                }
            }
            j
        }
    }
}

/// Every finite set of byte strings has a sorted listing.
pub proof fn lemma_sorted_listing_exists(s: Set<Seq<u8>>)
    requires
        s.finite(),
    ensures
        strictly_sorted(sorted_listing(s)),
        sorted_listing(s).to_set() == s,
    decreases s.len(),
{
    if s.len() == 0 {
        let l = Seq::<Seq<u8>>::empty();
        assert(l.to_set() =~= s) by {
            assert forall|x: Seq<u8>| !s.contains(x) by {
                if s.contains(x) {
                    assert(s.remove(x).len() < s.len());
                }
            }
        }
        assert(strictly_sorted(l) && l.to_set() == s);
    } else {
        let x = s.choose();
        assert(s.contains(x)) by {
            if !s.contains(x) {
                assert(s =~= Set::empty()) by {
                    assert forall|y: Seq<u8>| !s.contains(y) by {
                        if s.contains(y) {
                            assert(s.contains(s.choose()));
                        }
                    }
                }
            }
        }
        let r = s.remove(x);
        lemma_sorted_listing_exists(r);
        let lr = sorted_listing(r);
        assert(!lr.contains(x)) by {
            if lr.contains(x) {
                assert(lr.to_set().contains(x));
            }
        }
        let i = lemma_insertion_point(lr, x);
        lemma_sorted_insert(lr, i, x);
        let l = lr.insert(i, x);
        lemma_insert_to_set(lr, i, x);
        assert(l.to_set() =~= s);
        assert(strictly_sorted(l) && l.to_set() == s);
    }
}

/// The lexicographic order is the order of `Ord` on byte slices: `a` comes before `b`
/// exactly when, at the first position `i` where they differ, the byte of `a` is the
/// smaller unsigned integer, or `a` ends at `i` while `b` goes on.
pub proof fn lemma_lex_lt_first_difference(a: Seq<u8>, b: Seq<u8>)
    ensures
        lex_lt(a, b) <==> exists|i: int|
            #![trigger a.take(i), b.take(i)]
            0 <= i <= a.len() && i <= b.len() && a.take(i) == b.take(i) && ((i == a.len() && i
                < b.len()) || (i < a.len() && i < b.len() && (a[i] as int) < (b[i] as int))),
    decreases a.len(),
{
    if a.len() == 0 {
        if b.len() > 0 {
            assert(a.take(0) =~= b.take(0));
        }
    } else if b.len() == 0 {
    } else if a[0] != b[0] {
        if a[0] < b[0] {
            assert(a.take(0) =~= b.take(0));
        }
        if exists|i: int|
            #![trigger a.take(i), b.take(i)]
            0 <= i <= a.len() && i <= b.len() && a.take(i) == b.take(i) && ((i == a.len() && i
                < b.len()) || (i < a.len() && i < b.len() && (a[i] as int) < (b[i] as int))) {
            let i = choose|i: int|
                #![trigger a.take(i), b.take(i)]
                0 <= i <= a.len() && i <= b.len() && a.take(i) == b.take(i) && ((i == a.len() && i
                    < b.len()) || (i < a.len() && i < b.len() && (a[i] as int) < (b[i] as int)));
            if i > 0 {
                assert(a.take(i)[0] == b.take(i)[0]);
            }
        }
    } else {
        let a1 = a.drop_first();
        let b1 = b.drop_first();
        lemma_lex_lt_first_difference(a1, b1);
        if lex_lt(a1, b1) {
            let j = choose|j: int|
                #![trigger a1.take(j), b1.take(j)]
                0 <= j <= a1.len() && j <= b1.len() && a1.take(j) == b1.take(j) && ((j == a1.len()
                    && j < b1.len()) || (j < a1.len() && j < b1.len() && (a1[j] as int) < (
                b1[j] as int)));
            let i = j + 1;
            assert(a.take(i) =~= seq![a[0]] + a1.take(j));
            assert(b.take(i) =~= seq![b[0]] + b1.take(j));
            if j < a1.len() {
                assert(a[i] == a1[j]);
                assert(b[i] == b1[j]);
            }
        }
        if exists|i: int|
            #![trigger a.take(i), b.take(i)]
            0 <= i <= a.len() && i <= b.len() && a.take(i) == b.take(i) && ((i == a.len() && i
                < b.len()) || (i < a.len() && i < b.len() && (a[i] as int) < (b[i] as int))) {
            let i = choose|i: int|
                #![trigger a.take(i), b.take(i)]
                0 <= i <= a.len() && i <= b.len() && a.take(i) == b.take(i) && ((i == a.len() && i
                    < b.len()) || (i < a.len() && i < b.len() && (a[i] as int) < (b[i] as int)));
            assert(i > 0);
            let j = i - 1;
            assert(a1.take(j) =~= a.take(i).drop_first());
            assert(b1.take(j) =~= b.take(i).drop_first());
            if i < a.len() {
                assert(a[i] == a1[j]);
            }
            if i < b.len() {
                assert(b[i] == b1[j]);
            }
            assert(a1.take(j) == b1.take(j));
        }
    }
}

/// For one-byte strings the order is that of the bytes as unsigned integers.
pub proof fn lemma_lex_single_bytes(x: u8, y: u8)
    ensures
        lex_lt(seq![x], seq![y]) <==> x < y,
{
    let a = seq![x];
    let b = seq![y];
    assert(a.drop_first() =~= Seq::<u8>::empty());
    assert(b.drop_first() =~= Seq::<u8>::empty());
    assert(a[0] == x && b[0] == y && a.len() == 1 && b.len() == 1);
    if x == y {
        assert(a =~= b);
        lemma_lex_irreflexive(a);
    }
}

} // verus!
