//! A binary search tree holding a set of machine words, viewed as its
//! strictly sorted in-order sequence.

use vstd::prelude::*;

verus! {

/// One node of the search tree.
struct Node {
    value: u64,
    left: Option<Box<Node>>,
    right: Option<Box<Node>>,
}

/// The in-order sequence of a subtree.
spec fn subtree_seq(n: Option<Box<Node>>) -> Seq<u64>
    decreases n,
{
    match n {
        Option::None => Seq::empty(),
        Option::Some(b) => subtree_seq(b.left) + seq![b.value] + subtree_seq(b.right),
    }
}

/// A strictly increasing sequence: sorted and free of duplicates.
pub open spec fn sorted_strict(s: Seq<u64>) -> bool {
    forall|i: int, j: int| 0 <= i < j < s.len() ==> s[i] < s[j]
}

/// Membership in a three-part concatenation splits into its parts.
proof fn lemma_mid_contains(l: Seq<u64>, v: u64, r: Seq<u64>)
    ensures
        forall|x: u64|
            (l + seq![v] + r).contains(x) <==> (l.contains(x) || x == v || r.contains(x)),
{
    let s = l + seq![v] + r;
    assert forall|x: u64| s.contains(x) implies (l.contains(x) || x == v || r.contains(x)) by {
        let i = choose|i: int| 0 <= i < s.len() && s[i] == x;
        if i < l.len() {
            assert(l[i] == x);
        } else if i == l.len() {
            assert(x == v);
        } else {
            assert(r[i - l.len() - 1] == x);
        }
    }
    assert forall|x: u64| (l.contains(x) || x == v || r.contains(x)) implies s.contains(x) by {
        if l.contains(x) {
            let i = choose|i: int| 0 <= i < l.len() && l[i] == x;
            assert(s[i] == x);
        } else if x == v {
            assert(s[l.len() as int] == x);
        } else {
            let i = choose|i: int| 0 <= i < r.len() && r[i] == x;
            assert(s[l.len() + 1 + i] == x);
        }
    }
}

/// A sorted three-part concatenation has sorted parts, with the middle value
/// above everything on the left and below everything on the right.
proof fn lemma_sorted_parts(l: Seq<u64>, v: u64, r: Seq<u64>)
    requires
        sorted_strict(l + seq![v] + r),
    ensures
        sorted_strict(l),
        sorted_strict(r),
        forall|i: int| 0 <= i < l.len() ==> l[i] < v,
        forall|j: int| 0 <= j < r.len() ==> v < r[j],
{
    let s = l + seq![v] + r;
    assert forall|i: int, j: int| 0 <= i < j < l.len() implies l[i] < l[j] by {
        assert(s[i] == l[i]);
        assert(s[j] == l[j]);
    }
    assert forall|i: int, j: int| 0 <= i < j < r.len() implies r[i] < r[j] by {
        assert(s[l.len() + 1 + i] == r[i]);
        assert(s[l.len() + 1 + j] == r[j]);
    }
    assert forall|i: int| 0 <= i < l.len() implies l[i] < v by {
        assert(s[i] == l[i]);
        assert(s[l.len() as int] == v);
    }
    assert forall|j: int| 0 <= j < r.len() implies v < r[j] by {
        assert(s[l.len() + 1 + j] == r[j]);
        assert(s[l.len() as int] == v);
    }
}

/// The converse: sorted parts in the right ranges concatenate to a sorted
/// sequence.
proof fn lemma_parts_sorted(l: Seq<u64>, v: u64, r: Seq<u64>)
    requires
        sorted_strict(l),
        sorted_strict(r),
        forall|i: int| 0 <= i < l.len() ==> l[i] < v,
        forall|j: int| 0 <= j < r.len() ==> v < r[j],
    ensures
        sorted_strict(l + seq![v] + r),
{
    let s = l + seq![v] + r;
    assert forall|i: int, j: int| 0 <= i < j < s.len() implies s[i] < s[j] by {
        if i < l.len() {
            assert(s[i] == l[i]);
        } else if i == l.len() {
            assert(s[i] == v);
        } else {
            assert(s[i] == r[i - l.len() - 1]);
        }
        if j < l.len() {
            assert(s[j] == l[j]);
        } else if j == l.len() {
            assert(s[j] == v);
        } else {
            assert(s[j] == r[j - l.len() - 1]);
        }
    }
}


/// Two strictly sorted sequences with the same members are the same
/// sequence, so the membership and sortedness that `insert` and `remove`
/// promise pin the tree's in-order view completely.
pub proof fn lemma_sorted_members_unique(a: Seq<u64>, b: Seq<u64>)
    requires
        sorted_strict(a),
        sorted_strict(b),
        forall|x: u64| a.contains(x) <==> b.contains(x),
    ensures
        a == b,
    decreases a.len(),
{
    if a.len() == 0 {
        if b.len() > 0 {
            assert(b.contains(b[0]));
            assert(a.contains(b[0]));
            let i = choose|i: int| 0 <= i < a.len() && a[i] == b[0];
            assert(false);
        }
        assert(a =~= b);
    } else {
        assert(a.contains(a[0]));
        assert(b.contains(a[0]));
        let j = choose|j: int| 0 <= j < b.len() && b[j] == a[0];
        assert(b.len() > 0);
        assert(b.contains(b[0]));
        assert(a.contains(b[0]));
        let i = choose|i: int| 0 <= i < a.len() && a[i] == b[0];
        // each head is at most the other, through the found indexes
        assert(b[0] <= a[0]) by {
            if j > 0 {
                assert(b[0] < b[j]);
            }
        }
        assert(a[0] <= b[0]) by {
            if i > 0 {
                assert(a[0] < a[i]);
            }
        }
        let at = a.skip(1);
        let bt = b.skip(1);
        assert forall|p: int, q: int| 0 <= p < q < at.len() implies at[p] < at[q] by {
            assert(at[p] == a[p + 1]);
            assert(at[q] == a[q + 1]);
        }
        assert forall|p: int, q: int| 0 <= p < q < bt.len() implies bt[p] < bt[q] by {
            assert(bt[p] == b[p + 1]);
            assert(bt[q] == b[q + 1]);
        }
        assert forall|x: u64| at.contains(x) <==> (a.contains(x) && x != a[0]) by {
            if at.contains(x) {
                let p = choose|p: int| 0 <= p < at.len() && at[p] == x;
                assert(a[p + 1] == x);
                assert(a[0] < a[p + 1]);
                assert(a.contains(x));
            }
            if a.contains(x) && x != a[0] {
                let p = choose|p: int| 0 <= p < a.len() && a[p] == x;
                assert(p > 0);
                assert(at[p - 1] == x);
                assert(at.contains(x));
            }
        }
        assert forall|x: u64| bt.contains(x) <==> (b.contains(x) && x != b[0]) by {
            if bt.contains(x) {
                let p = choose|p: int| 0 <= p < bt.len() && bt[p] == x;
                assert(b[p + 1] == x);
                assert(b[0] < b[p + 1]);
                assert(b.contains(x));
            }
            if b.contains(x) && x != b[0] {
                let p = choose|p: int| 0 <= p < b.len() && b[p] == x;
                assert(p > 0);
                assert(bt[p - 1] == x);
                assert(bt.contains(x));
            }
        }
        lemma_sorted_members_unique(at, bt);
        assert forall|k: int| 0 <= k < a.len() implies a[k] == b[k] by {
            if k > 0 {
                assert(at[k - 1] == bt[k - 1]);
            }
        }
        assert(a =~= b);
    }
}

/// Searches a subtree for a value.
fn node_contains(n: &Option<Box<Node>>, v: u64) -> (r: bool)
    requires
        sorted_strict(subtree_seq(*n)),
    ensures
        r == subtree_seq(*n).contains(v),
    decreases n,
{
    match n {
        Option::None => {
            proof {
                assert(*n is None);
                assert(subtree_seq(*n) =~= Seq::<u64>::empty());
                assert(!Seq::<u64>::empty().contains(v));
                assert(!subtree_seq(*n).contains(v));
            }
            false
        },
        Option::Some(b) => {
            let ghost l = subtree_seq(b.left);
            let ghost r = subtree_seq(b.right);
            proof {
                assert(subtree_seq(*n) == l + seq![b.value] + r);
                lemma_sorted_parts(l, b.value, r);
                lemma_mid_contains(l, b.value, r);
            }
            if v == b.value {
                proof {
                    let s = l + seq![b.value] + r;
                    assert(s[l.len() as int] == v);
                    assert(s.contains(v));
                }
                true
            } else if v < b.value {
                proof {
                    if r.contains(v) {
                        let j = choose|j: int| 0 <= j < r.len() && r[j] == v;
                        assert(b.value < r[j]);
                        assert(false);
                    }
                }
                node_contains(&b.left, v)
            } else {
                proof {
                    if l.contains(v) {
                        let i = choose|i: int| 0 <= i < l.len() && l[i] == v;
                        assert(l[i] < b.value);
                        assert(false);
                    }
                }
                node_contains(&b.right, v)
            }
        },
    }
}

/// Inserts a value into a subtree, returning the new subtree and whether the
/// value was new.
fn node_insert(n: Option<Box<Node>>, v: u64) -> (res: (Option<Box<Node>>, bool))
    requires
        sorted_strict(subtree_seq(n)),
    ensures
        sorted_strict(subtree_seq(res.0)),
        res.1 == !subtree_seq(n).contains(v),
        forall|x: u64| subtree_seq(res.0).contains(x) <==> (subtree_seq(n).contains(x) || x == v),
        subtree_seq(res.0).len() == subtree_seq(n).len() + if res.1 {
            1int
        } else {
            0int
        },
    decreases n,
{
    let ghost s0 = subtree_seq(n);
    match n {
        Option::None => {
            proof {
                assert(s0 =~= Seq::<u64>::empty());
            }
            let out = Option::Some(Box::new(Node { value: v, left: Option::None, right: Option::None }));
            proof {
                let e = Seq::<u64>::empty();
                assert(subtree_seq(n) =~= e);
                assert(!e.contains(v));
                assert(subtree_seq(out) =~= e + seq![v] + e);
                lemma_mid_contains(e, v, e);
                lemma_parts_sorted(e, v, e);
                assert((e + seq![v] + e)[0] == v);
                assert((e + seq![v] + e).contains(v));
                assert forall|x: u64|
                    subtree_seq(out).contains(x) <==> (s0.contains(x) || x == v) by {
                    assert(subtree_seq(out).contains(x) <==> (e + seq![v] + e).contains(x));
                    assert(!s0.contains(x));
                }
            }
            (out, true)
        },
        Option::Some(b) => {
            proof {
                assert(s0 == subtree_seq(b.left) + seq![b.value] + subtree_seq(b.right));
            }
            let node = *b;
            let Node { value, left, right } = node;
            let ghost l = subtree_seq(left);
            let ghost r = subtree_seq(right);
            proof {
                assert(s0 == l + seq![value] + r);
                lemma_sorted_parts(l, value, r);
                lemma_mid_contains(l, value, r);
            }
            if v == value {
                let out = Option::Some(Box::new(Node { value, left, right }));
                proof {
                    assert(subtree_seq(out) =~= l + seq![value] + r);
                    assert(s0[l.len() as int] == v);
                    assert(s0.contains(v));
                    assert(subtree_seq(out) == s0);
                    assert forall|x: u64|
                        subtree_seq(out).contains(x) <==> (s0.contains(x) || x == v) by {
                        if x == v {
                            assert(s0.contains(v));
                        }
                    }
                }
                (out, false)
            } else if v < value {
                proof {
                    if r.contains(v) {
                        let j = choose|j: int| 0 <= j < r.len() && r[j] == v;
                        assert(value < r[j]);
                        assert(false);
                    }
                }
                let (nl, added) = node_insert(left, v);
                let ghost l2 = subtree_seq(nl);
                proof {
                    assert forall|i: int| 0 <= i < l2.len() implies l2[i] < value by {
                        let x = l2[i];
                        assert(l2.contains(x));
                        if l.contains(x) {
                            let k = choose|k: int| 0 <= k < l.len() && l[k] == x;
                            assert(l[k] < value);
                        } else {
                            assert(x == v);
                        }
                    }
                    lemma_parts_sorted(l2, value, r);
                    lemma_mid_contains(l2, value, r);
                }
                let out = Option::Some(Box::new(Node { value, left: nl, right }));
                proof {
                    assert(subtree_seq(out) =~= l2 + seq![value] + r);
                    assert((l2 + seq![value] + r)[l2.len() as int] == value);
                    assert((l + seq![value] + r)[l.len() as int] == value);
                    lemma_mid_contains(l2, value, r);
                    assert forall|x: u64|
                        subtree_seq(out).contains(x) <==> (s0.contains(x) || x == v) by {
                        assert(subtree_seq(out).contains(x) <==> (l2 + seq![value] + r).contains(
                            x,
                        ));
                        assert(s0.contains(x) <==> (l + seq![value] + r).contains(x));
                        assert(l2.contains(x) <==> (l.contains(x) || x == v));
                    }
                }
                (out, added)
            } else {
                proof {
                    if l.contains(v) {
                        let i = choose|i: int| 0 <= i < l.len() && l[i] == v;
                        assert(l[i] < value);
                        assert(false);
                    }
                }
                let (nr, added) = node_insert(right, v);
                let ghost r2 = subtree_seq(nr);
                proof {
                    assert forall|j: int| 0 <= j < r2.len() implies value < r2[j] by {
                        let x = r2[j];
                        assert(r2.contains(x));
                        if r.contains(x) {
                            let k = choose|k: int| 0 <= k < r.len() && r[k] == x;
                            assert(value < r[k]);
                        } else {
                            assert(x == v);
                        }
                    }
                    lemma_parts_sorted(l, value, r2);
                    lemma_mid_contains(l, value, r2);
                }
                let out = Option::Some(Box::new(Node { value, left, right: nr }));
                proof {
                    assert(subtree_seq(out) =~= l + seq![value] + r2);
                    assert((l + seq![value] + r2)[l.len() as int] == value);
                    assert((l + seq![value] + r)[l.len() as int] == value);
                    lemma_mid_contains(l, value, r2);
                    assert forall|x: u64|
                        subtree_seq(out).contains(x) <==> (s0.contains(x) || x == v) by {
                        assert(subtree_seq(out).contains(x) <==> (l + seq![value] + r2).contains(
                            x,
                        ));
                        assert(s0.contains(x) <==> (l + seq![value] + r).contains(x));
                        assert(r2.contains(x) <==> (r.contains(x) || x == v));
                    }
                }
                (out, added)
            }
        },
    }
}

/// Removes and returns the greatest value of a non-empty subtree.
fn remove_max(b: Box<Node>) -> (res: (Option<Box<Node>>, u64))
    requires
        sorted_strict(subtree_seq(Option::Some(b))),
    ensures
        sorted_strict(subtree_seq(res.0)),
        subtree_seq(Option::Some(b)).len() > 0,
        subtree_seq(res.0) == subtree_seq(Option::Some(b)).drop_last(),
        res.1 == subtree_seq(Option::Some(b)).last(),
    decreases b,
{
    let ghost s0 = subtree_seq(Option::Some(b));
    let node = *b;
    let Node { value, left, right } = node;
    let ghost l = subtree_seq(left);
    let ghost r = subtree_seq(right);
    proof {
        assert(s0 == l + seq![value] + r);
        lemma_sorted_parts(l, value, r);
    }
    match right {
        Option::None => {
            proof {
                assert(r =~= Seq::<u64>::empty());
                assert(s0.drop_last() =~= l);
                assert(s0.last() == value);
            }
            (left, value)
        },
        Option::Some(rb) => {
            let (nr, m) = remove_max(rb);
            let ghost r2 = subtree_seq(nr);
            let out = Option::Some(Box::new(Node { value, left, right: nr }));
            proof {
                assert(r2 == r.drop_last());
                assert(m == r.last());
                assert forall|j: int| 0 <= j < r2.len() implies value < r2[j] by {
                    assert(r2[j] == r[j]);
                }
                lemma_parts_sorted(l, value, r2);
                assert(subtree_seq(out) =~= l + seq![value] + r2);
                assert(subtree_seq(out) =~= s0.drop_last());
                assert(s0.last() == r.last());
            }
            (out, m)
        },
    }
}

/// Removes a value from a subtree, returning the new subtree and whether the
/// value was present.
fn node_remove(n: Option<Box<Node>>, v: u64) -> (res: (Option<Box<Node>>, bool))
    requires
        sorted_strict(subtree_seq(n)),
    ensures
        sorted_strict(subtree_seq(res.0)),
        res.1 == subtree_seq(n).contains(v),
        forall|x: u64| subtree_seq(res.0).contains(x) <==> (subtree_seq(n).contains(x) && x != v),
        subtree_seq(res.0).len() == subtree_seq(n).len() - if res.1 {
            1int
        } else {
            0int
        },
    decreases n,
{
    let ghost s0 = subtree_seq(n);
    match n {
        Option::None => {
            proof {
                assert(s0 =~= Seq::<u64>::empty());
            }
            (Option::None, false)
        },
        Option::Some(b) => {
            proof {
                assert(s0 == subtree_seq(b.left) + seq![b.value] + subtree_seq(b.right));
            }
            let node = *b;
            let Node { value, left, right } = node;
            let ghost l = subtree_seq(left);
            let ghost r = subtree_seq(right);
            proof {
                assert(s0 == l + seq![value] + r);
                lemma_sorted_parts(l, value, r);
                lemma_mid_contains(l, value, r);
            }
            if v < value {
                proof {
                    if r.contains(v) {
                        let j = choose|j: int| 0 <= j < r.len() && r[j] == v;
                        assert(value < r[j]);
                        assert(false);
                    }
                }
                let (nl, removed) = node_remove(left, v);
                let ghost l2 = subtree_seq(nl);
                let out = Option::Some(Box::new(Node { value, left: nl, right }));
                proof {
                    assert forall|i: int| 0 <= i < l2.len() implies l2[i] < value by {
                        let x = l2[i];
                        assert(l2.contains(x));
                        assert(l.contains(x));
                        let k = choose|k: int| 0 <= k < l.len() && l[k] == x;
                        assert(l[k] < value);
                    }
                    lemma_parts_sorted(l2, value, r);
                    lemma_mid_contains(l2, value, r);
                    assert(subtree_seq(out) =~= l2 + seq![value] + r);
                    assert((l2 + seq![value] + r)[l2.len() as int] == value);
                    assert((l + seq![value] + r)[l.len() as int] == value);
                    assert forall|x: u64|
                        subtree_seq(out).contains(x) <==> (s0.contains(x) && x != v) by {
                        assert(subtree_seq(out).contains(x) <==> (l2 + seq![value] + r).contains(
                            x,
                        ));
                        assert(s0.contains(x) <==> (l + seq![value] + r).contains(x));
                        assert(l2.contains(x) <==> (l.contains(x) && x != v));
                        if x == v && r.contains(x) {
                            let j = choose|j: int| 0 <= j < r.len() && r[j] == x;
                            assert(value < r[j]);
                            assert(false);
                        }
                    }
                }
                (out, removed)
            } else if value < v {
                proof {
                    if l.contains(v) {
                        let i = choose|i: int| 0 <= i < l.len() && l[i] == v;
                        assert(l[i] < value);
                        assert(false);
                    }
                }
                let (nr, removed) = node_remove(right, v);
                let ghost r2 = subtree_seq(nr);
                let out = Option::Some(Box::new(Node { value, left, right: nr }));
                proof {
                    assert forall|j: int| 0 <= j < r2.len() implies value < r2[j] by {
                        let x = r2[j];
                        assert(r2.contains(x));
                        assert(r.contains(x));
                        let k = choose|k: int| 0 <= k < r.len() && r[k] == x;
                        assert(value < r[k]);
                    }
                    lemma_parts_sorted(l, value, r2);
                    lemma_mid_contains(l, value, r2);
                    assert(subtree_seq(out) =~= l + seq![value] + r2);
                    assert((l + seq![value] + r2)[l.len() as int] == value);
                    assert((l + seq![value] + r)[l.len() as int] == value);
                    assert forall|x: u64|
                        subtree_seq(out).contains(x) <==> (s0.contains(x) && x != v) by {
                        assert(subtree_seq(out).contains(x) <==> (l + seq![value] + r2).contains(
                            x,
                        ));
                        assert(s0.contains(x) <==> (l + seq![value] + r).contains(x));
                        assert(r2.contains(x) <==> (r.contains(x) && x != v));
                        if x == v && l.contains(x) {
                            let i = choose|i: int| 0 <= i < l.len() && l[i] == x;
                            assert(l[i] < value);
                            assert(false);
                        }
                    }
                }
                (out, removed)
            } else {
                // v == value: this node leaves the tree
                proof {
                    assert(s0[l.len() as int] == v);
                    assert(s0.contains(v));
                }
                match left {
                    Option::None => {
                        proof {
                            assert(l =~= Seq::<u64>::empty());
                            assert forall|x: u64|
                                r.contains(x) <==> (s0.contains(x) && x != v) by {
                                if r.contains(x) {
                                    let j = choose|j: int| 0 <= j < r.len() && r[j] == x;
                                    assert(value < r[j]);
                                }
                            }
                        }
                        (right, true)
                    },
                    Option::Some(lb) => {
                        let (nl, m) = remove_max(lb);
                        let ghost dl = subtree_seq(nl);
                        let out = Option::Some(Box::new(Node { value: m, left: nl, right }));
                        proof {
                            assert(dl == l.drop_last());
                            assert(m == l.last());
                            assert(l.len() > 0);
                            assert forall|i: int| 0 <= i < dl.len() implies dl[i] < m by {
                                assert(dl[i] == l[i]);
                                assert(l[i] < l[l.len() - 1]);
                            }
                            assert(m < value) by {
                                assert(l[l.len() - 1] < value);
                            }
                            assert forall|j: int| 0 <= j < r.len() implies m < r[j] by {
                                assert(value < r[j]);
                            }
                            lemma_parts_sorted(dl, m, r);
                            lemma_mid_contains(dl, m, r);
                            assert(subtree_seq(out) =~= dl + seq![m] + r);
                            assert forall|x: u64|
                                subtree_seq(out).contains(x) <==> (s0.contains(x) && x != v) by {
                                assert(subtree_seq(out).contains(x) <==> (dl + seq![m] + r)
                                    .contains(x));
                                assert(s0.contains(x) <==> (l + seq![value] + r).contains(x));
                                // l holds exactly dl plus its greatest element m
                                if l.contains(x) {
                                    let i = choose|i: int| 0 <= i < l.len() && l[i] == x;
                                    if i < l.len() - 1 {
                                        assert(dl[i] == x);
                                    } else {
                                        assert(x == m);
                                    }
                                    assert(l[i] < value);
                                }
                                if dl.contains(x) {
                                    let i = choose|i: int| 0 <= i < dl.len() && dl[i] == x;
                                    assert(l[i] == x);
                                }
                                if x == m {
                                    assert(l[l.len() - 1] == x);
                                    assert(l.contains(x));
                                }
                                if r.contains(x) {
                                    let j = choose|j: int| 0 <= j < r.len() && r[j] == x;
                                    assert(value < r[j]);
                                }
                            }
                        }
                        (out, true)
                    },
                }
            }
        },
    }
}

/// Copies a subtree in order onto the end of a vector.
fn push_inorder(n: &Option<Box<Node>>, out: &mut Vec<u64>)
    ensures
        final(out)@ == old(out)@ + subtree_seq(*n),
    decreases n,
{
    match n {
        Option::None => {
            proof {
                assert(subtree_seq(*n) =~= Seq::<u64>::empty());
                assert(out@ =~= out@ + Seq::<u64>::empty());
            }
        },
        Option::Some(b) => {
            let ghost base = out@;
            proof {
                assert(subtree_seq(*n) == subtree_seq(b.left) + seq![b.value] + subtree_seq(
                    b.right,
                ));
            }
            push_inorder(&b.left, out);
            out.push(b.value);
            proof {
                assert(out@ =~= base + subtree_seq(b.left) + seq![b.value]);
            }
            push_inorder(&b.right, out);
            proof {
                assert(out@ =~= base + subtree_seq(*n));
            }
        },
    }
}

/// Binary search tree over machine words, seen as its sorted in-order
/// sequence of values.
pub struct Tree {
    root: Option<Box<Node>>,
    len: usize,
}

impl View for Tree {
    type V = Seq<u64>;

    closed spec fn view(&self) -> Seq<u64> {
        subtree_seq(self.root)
    }
}

impl Tree {
    /// The in-order sequence is strictly sorted and the stored length
    /// matches it.
    pub closed spec fn wf(&self) -> bool {
        sorted_strict(subtree_seq(self.root)) && self.len == subtree_seq(self.root).len()
    }

    /// An empty tree.
    pub fn new() -> (r: Tree)
        ensures
            r.wf(),
            r@ == Seq::<u64>::empty(),
    {
        proof {
            assert(subtree_seq(Option::None) =~= Seq::<u64>::empty());
        }
        Tree { root: Option::None, len: 0 }
    }

    /// The number of stored values.
    pub fn len(&self) -> (r: usize)
        requires
            self.wf(),
        ensures
            r == self@.len(),
    {
        self.len
    }

    /// Whether the tree holds no value.
    pub fn is_empty(&self) -> (r: bool)
        requires
            self.wf(),
        ensures
            r == (self@.len() == 0),
    {
        self.len == 0
    }

    /// Whether the tree holds the value.
    pub fn contains(&self, value: &u64) -> (r: bool)
        requires
            self.wf(),
        ensures
            r == self@.contains(*value),
    {
        node_contains(&self.root, *value)
    }

    /// Inserts the value; returns whether it was new.
    pub fn insert(&mut self, value: u64) -> (r: bool)
        requires
            old(self).wf(),
            old(self)@.len() < usize::MAX,
        ensures
            final(self).wf(),
            sorted_strict(final(self)@),
            r == !old(self)@.contains(value),
            forall|x: u64| final(self)@.contains(x) <==> (old(self)@.contains(x) || x == value),
            final(self)@.len() == old(self)@.len() + if r {
                1int
            } else {
                0int
            },
    {
        let mut root: Option<Box<Node>> = Option::None;
        core::mem::swap(&mut root, &mut self.root);
        let (nr, added) = node_insert(root, value);
        self.root = nr;
        if added {
            self.len = self.len + 1;
        }
        added
    }

    /// Removes the value; returns whether it was present.
    pub fn remove(&mut self, value: &u64) -> (r: bool)
        requires
            old(self).wf(),
        ensures
            final(self).wf(),
            sorted_strict(final(self)@),
            r == old(self)@.contains(*value),
            forall|x: u64| final(self)@.contains(x) <==> (old(self)@.contains(x) && x != *value),
            final(self)@.len() == old(self)@.len() - if r {
                1int
            } else {
                0int
            },
    {
        let mut root: Option<Box<Node>> = Option::None;
        core::mem::swap(&mut root, &mut self.root);
        let (nr, removed) = node_remove(root, *value);
        self.root = nr;
        if removed {
            self.len = self.len - 1;
        }
        removed
    }

    /// An iterator over the values in increasing order.
    pub fn iter(&self) -> (it: Iter)
        requires
            self.wf(),
        ensures
            it.wf(),
            it.remaining() == self@,
    {
        let mut items: Vec<u64> = Vec::new();
        push_inorder(&self.root, &mut items);
        proof {
            assert(items@ =~= subtree_seq(self.root));
            assert(items@.skip(0) =~= items@);
        }
        Iter { items, pos: 0 }
    }
}


/// Copies a subtree, node for node.
fn clone_node(n: &Option<Box<Node>>) -> (r: Option<Box<Node>>)
    ensures
        subtree_seq(r) == subtree_seq(*n),
    decreases n,
{
    match n {
        Option::None => {
            proof {
                assert(subtree_seq(Option::None) =~= subtree_seq(*n));
            }
            Option::None
        },
        Option::Some(b) => {
            let nl = clone_node(&b.left);
            let nr = clone_node(&b.right);
            let out = Option::Some(Box::new(Node { value: b.value, left: nl, right: nr }));
            proof {
                assert(subtree_seq(out) =~= subtree_seq(*n));
            }
            out
        },
    }
}

impl Clone for Tree {
    /// An equal tree with its own nodes.
    fn clone(&self) -> (r: Tree)
        ensures
            r@ == self@,
            r.wf() == self.wf(),
    {
        Tree { root: clone_node(&self.root), len: self.len }
    }
}

impl Default for Tree {
    /// The empty tree.
    fn default() -> (r: Tree)
        ensures
            r.wf(),
            r@ == Seq::<u64>::empty(),
    {
        Tree::new()
    }
}

/// Iterator over a tree's values in increasing order.
pub struct Iter {
    items: Vec<u64>,
    pos: usize,
}

impl Iter {
    /// The position never passes the end of the collected values.
    pub closed spec fn wf(&self) -> bool {
        self.pos <= self.items@.len()
    }

    /// The values not yet yielded, in order.
    pub closed spec fn remaining(&self) -> Seq<u64> {
        self.items@.skip(self.pos as int)
    }

    /// Yields the next value, front first.
    pub fn next(&mut self) -> (r: Option<u64>)
        requires
            old(self).wf(),
        ensures
            final(self).wf(),
            match r {
                Option::Some(x) => old(self).remaining().len() > 0 && x == old(
                    self,
                ).remaining()[0] && final(self).remaining() == old(self).remaining().skip(1),
                Option::None => old(self).remaining().len() == 0 && final(self).remaining() == old(
                    self,
                ).remaining(),
            },
    {
        if self.pos < self.items.len() {
            let x = self.items[self.pos];
            self.pos = self.pos + 1;
            proof {
                assert(self.items@.skip(self.pos as int) =~= old(self).remaining().skip(1));
            }
            Option::Some(x)
        } else {
            Option::None
        }
    }

    /// The exact number of values left.
    pub fn size_hint(&self) -> (r: (usize, Option<usize>))
        requires
            self.wf(),
        ensures
            r.0 == self.remaining().len(),
            r.1 == Option::Some(r.0),
    {
        let rem = self.items.len() - self.pos;
        (rem, Option::Some(rem))
    }

    /// The values left, as a vector.
    pub fn into_vec(self) -> (v: Vec<u64>)
        requires
            self.wf(),
        ensures
            v@ == self.remaining(),
    {
        let mut out: Vec<u64> = Vec::new();
        let mut i = self.pos;
        while i < self.items.len()
            invariant
                self.pos <= i,
                i <= self.items@.len(),
                out@ == self.items@.subrange(self.pos as int, i as int),
            decreases self.items@.len() - i,
        {
            let x = self.items[i];
            proof {
                assert(self.items@.subrange(self.pos as int, i + 1) =~= self.items@.subrange(
                    self.pos as int,
                    i as int,
                ).push(x));
            }
            out.push(x);
            i = i + 1;
        }
        proof {
            assert(out@ =~= self.remaining());
        }
        out
    }
}

} // verus!
