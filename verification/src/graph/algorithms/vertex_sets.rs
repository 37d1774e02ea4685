//! Small vertex sets held as duplicate-free lists.
use vstd::prelude::*;

verus! {

/// The sets viewed through a sequence of lists.
pub open spec fn sets_of(lists: Seq<Vec<u32>>) -> Seq<Set<u32>> {
    Seq::new(lists.len(), |i: int| lists[i]@.to_set())
}

/// Every list is duplicate-free.
pub open spec fn all_distinct(lists: Seq<Vec<u32>>) -> bool {
    forall|i: int| 0 <= i < lists.len() ==> (#[trigger] lists[i])@.no_duplicates()
}

/// Strictly increasing.
pub open spec fn strictly_sorted(s: Seq<u32>) -> bool {
    forall|a: int, b: int| 0 <= a < b < s.len() ==> #[trigger] s[a] < #[trigger] s[b]
}

pub proof fn lemma_sorted_distinct(s: Seq<u32>)
    requires
        strictly_sorted(s),
    ensures
        s.no_duplicates(),
{
    assert forall|a: int, b: int| 0 <= a < s.len() && 0 <= b < s.len() && a != b implies s[a] != s[b] by {
        if a < b {
            assert(s[a] < s[b]);
        } else {
            assert(s[b] < s[a]);
        }
    }
}

/// Membership by linear scan.
pub fn list_contains(l: &Vec<u32>, x: u32) -> (r: bool)
    ensures
        r == l@.contains(x),
{
    let mut i: usize = 0;
    while i < l.len()
        invariant
            i <= l@.len(),
            forall|j: int| 0 <= j < i ==> l@[j] != x,
        decreases l@.len() - i,
    {
        if l[i] == x {
            return true;
        }
        i += 1;
    }
    false
}

/// Add `x` if absent; reports whether it was added.
pub fn list_insert(l: &mut Vec<u32>, x: u32) -> (added: bool)
    requires
        old(l)@.no_duplicates(),
    ensures
        final(l)@.no_duplicates(),
        final(l)@.to_set() == old(l)@.to_set().insert(x),
        added == !old(l)@.contains(x),
{
    if list_contains(l, x) {
        proof {
            assert(l@.to_set().insert(x) =~= l@.to_set());
        }
        false
    } else {
        let ghost before = l@;
        l.push(x);
        proof {
            assert(l@.to_set() =~= before.to_set().insert(x)) by {
                assert forall|y: u32| l@.to_set().contains(y) <==> before.to_set().insert(x).contains(y) by {
                    if l@.contains(y) && y != x {
                        let j = choose|j: int| 0 <= j < l@.len() && l@[j] == y;
                        assert(before[j] == y);
                    }
                    if before.contains(y) {
                        let j = choose|j: int| 0 <= j < before.len() && before[j] == y;
                        assert(l@[j] == y);
                    }
                    if y == x {
                        assert(l@[before.len() as int] == x);
                    }
                }
            }
        }
        true
    }
}

/// Remove `x` if present.
pub fn list_remove(l: &mut Vec<u32>, x: u32)
    requires
        old(l)@.no_duplicates(),
    ensures
        final(l)@.no_duplicates(),
        final(l)@.to_set() == old(l)@.to_set().remove(x),
        final(l)@.len() == if old(l)@.contains(x) { old(l)@.len() - 1 } else { old(l)@.len() as int },
{
    let mut i: usize = 0;
    while i < l.len()
        invariant
            i <= l@.len(),
            l@ == old(l)@,
            l@.no_duplicates(),
            forall|j: int| 0 <= j < i ==> l@[j] != x,
        decreases l@.len() - i,
    {
        if l[i] == x {
            let ghost before = l@;
            l.remove(i);
            proof {
                assert(l@ == before.remove(i as int));
                assert(l@.to_set() =~= before.to_set().remove(x)) by {
                    assert forall|y: u32| l@.to_set().contains(y) <==> before.to_set().remove(x).contains(y) by {
                        if l@.contains(y) {
                            let j = choose|j: int| 0 <= j < l@.len() && l@[j] == y;
                            if j < i {
                                assert(before[j] == y);
                            } else {
                                assert(before[j + 1] == y);
                            }
                        }
                        if before.contains(y) && y != x {
                            let j = choose|j: int| 0 <= j < before.len() && before[j] == y;
                            if j < i {
                                assert(l@[j] == y);
                            } else {
                                assert(j != i);
                                assert(l@[j - 1] == y);
                            }
                        }
                    }
                }
                assert(l@.no_duplicates()) by {
                    assert forall|a: int, b: int| 0 <= a < l@.len() && 0 <= b < l@.len() && a != b implies l@[a] != l@[b] by {
                        let a2 = if a < i { a } else { a + 1 };
                        let b2 = if b < i { b } else { b + 1 };
                        assert(l@[a] == before[a2]);
                        assert(l@[b] == before[b2]);
                    }
                }
            }
            return;
        }
        i += 1;
    }
    proof {
        assert(l@.to_set().remove(x) =~= l@.to_set());
    }
}

/// Insert `x` into a strictly increasing list, keeping it strictly increasing.
pub fn sorted_insert(l: &mut Vec<u32>, x: u32)
    requires
        strictly_sorted(old(l)@),
    ensures
        strictly_sorted(final(l)@),
        final(l)@.to_set() == old(l)@.to_set().insert(x),
{
    let mut i: usize = 0;
    while i < l.len() && l[i] < x
        invariant
            i <= l@.len(),
            forall|j: int| 0 <= j < i ==> l@[j] < x,
        decreases l@.len() - i,
    {
        i += 1;
    }
    if i < l.len() && l[i] == x {
        proof {
            assert(l@.to_set().insert(x) =~= l@.to_set());
        }
        return;
    }
    let ghost before = l@;
    l.insert(i, x);
    proof {
        assert(l@ == before.insert(i as int, x));
        assert forall|a: int, b: int| 0 <= a < b < l@.len() implies #[trigger] l@[a] < #[trigger] l@[b] by {
            if b < i {
                assert(l@[a] == before[a] && l@[b] == before[b]);
            } else if b == i {
                assert(l@[a] == before[a]);
            } else if a < i {
                assert(l@[a] == before[a] && l@[b] == before[b - 1]);
                assert(before[b - 1] >= before[i as int]);
            } else if a == i {
                assert(l@[b] == before[b - 1]);
                assert(before[b - 1] >= before[i as int]);
            } else {
                assert(l@[a] == before[a - 1] && l@[b] == before[b - 1]);
            }
        }
        assert(l@.to_set() =~= before.to_set().insert(x)) by {
            assert forall|y: u32| l@.to_set().contains(y) <==> before.to_set().insert(x).contains(y) by {
                if l@.contains(y) {
                    let j = choose|j: int| 0 <= j < l@.len() && l@[j] == y;
                    if j < i {
                        assert(before[j] == y);
                    } else if j > i {
                        assert(before[j - 1] == y);
                    }
                }
                if before.contains(y) {
                    let j = choose|j: int| 0 <= j < before.len() && before[j] == y;
                    if j < i {
                        assert(l@[j] == y);
                    } else {
                        assert(l@[j + 1] == y);
                    }
                }
                if y == x {
                    assert(l@[i as int] == x);
                }
            }
        }
    }
}

/// A copy of a list.
pub fn list_copy(l: &Vec<u32>) -> (r: Vec<u32>)
    ensures
        r@ == l@,
{
    let mut r: Vec<u32> = Vec::new();
    let mut i: usize = 0;
    while i < l.len()
        invariant
            i <= l@.len(),
            r@ == l@.subrange(0, i as int),
        decreases l@.len() - i,
    {
        r.push(l[i]);
        proof {
            assert(r@ == l@.subrange(0, i + 1));
        }
        i += 1;
    }
    proof {
        assert(l@.subrange(0, l@.len() as int) == l@);
    }
    r
}

/// A copy of a strictly increasing list without `x`.
pub fn sorted_without(l: &Vec<u32>, x: u32) -> (r: Vec<u32>)
    requires
        strictly_sorted(l@),
    ensures
        strictly_sorted(r@),
        r@.to_set() == l@.to_set().remove(x),
{
    let mut r: Vec<u32> = Vec::new();
    let mut i: usize = 0;
    while i < l.len()
        invariant
            strictly_sorted(l@),
            i <= l@.len(),
            strictly_sorted(r@),
            forall|a: int| 0 <= a < r@.len() ==> (#[trigger] r@[a] != x && l@.subrange(0, i as int).contains(r@[a])),
            forall|a: int| 0 <= a < i && l@[a] != x ==> #[trigger] r@.contains(l@[a]),
            r@.len() > 0 ==> i > 0 && r@[r@.len() - 1] <= l@[i - 1],
        decreases l@.len() - i,
    {
        if l[i] != x {
            let ghost before = r@;
            assert(forall|a: int| 0 <= a < i && l@[a] != x ==> #[trigger] before.contains(l@[a]));
            r.push(l[i]);
            proof {
                assert forall|a: int, b: int| 0 <= a < b < r@.len() implies #[trigger] r@[a] < #[trigger] r@[b] by {
                    if b == r@.len() - 1 && a < b {
                        assert(before[before.len() - 1] <= l@[i - 1]);
                        assert(r@[a] <= before[before.len() - 1]) by {
                            if a < before.len() - 1 {
                                assert(before[a] < before[before.len() - 1]);
                            }
                        }
                    }
                }
                assert forall|a: int| 0 <= a < r@.len() implies (#[trigger] r@[a] != x && l@.subrange(0, i + 1).contains(r@[a])) by {
                    if a < before.len() {
                        let j = choose|j: int| 0 <= j < i && l@.subrange(0, i as int)[j] == r@[a];
                        assert(l@.subrange(0, i + 1)[j] == r@[a]);
                    } else {
                        assert(l@.subrange(0, i + 1)[i as int] == r@[a]);
                    }
                }
                assert forall|a: int| 0 <= a < i + 1 && l@[a] != x implies #[trigger] r@.contains(l@[a]) by {
                    if a < i {
                        assert(before.contains(l@[a]));
                        let j = choose|j: int| 0 <= j < before.len() && before[j] == l@[a];
                        assert(r@[j] == before[j]);
                    } else {
                        assert(r@[r@.len() - 1] == l@[a]);
                    }
                }
            }
        } else {
            proof {
                assert forall|a: int| 0 <= a < r@.len() implies (#[trigger] r@[a] != x && l@.subrange(0, i + 1).contains(r@[a])) by {
                    let j = choose|j: int| 0 <= j < i && l@.subrange(0, i as int)[j] == r@[a];
                    assert(l@.subrange(0, i + 1)[j] == r@[a]);
                }
                if r@.len() > 0 {
                    assert(l@[i - 1] < l@[i as int]);
                }
            }
        }
        i += 1;
    }
    proof {
        assert(l@.subrange(0, l@.len() as int) == l@);
        assert(r@.to_set() =~= l@.to_set().remove(x)) by {
            assert forall|y: u32| r@.to_set().contains(y) <==> l@.to_set().remove(x).contains(y) by {
                if r@.contains(y) {
                    let j = choose|j: int| 0 <= j < r@.len() && r@[j] == y;
                    assert(r@[j] != x);
                }
                if l@.contains(y) && y != x {
                    let j = choose|j: int| 0 <= j < l@.len() && l@[j] == y;
                    assert(r@.contains(l@[j]));
                }
            }
        }
    }
    r
}

/// The members of a strictly increasing list that also lie in `b`, in order.
pub fn sorted_intersect(a: &Vec<u32>, b: &Vec<u32>) -> (r: Vec<u32>)
    requires
        strictly_sorted(a@),
    ensures
        strictly_sorted(r@),
        r@.to_set() == a@.to_set().intersect(b@.to_set()),
{
    let mut r: Vec<u32> = Vec::new();
    let mut i: usize = 0;
    while i < a.len()
        invariant
            strictly_sorted(a@),
            i <= a@.len(),
            strictly_sorted(r@),
            forall|k: int| 0 <= k < r@.len() ==> (b@.contains(#[trigger] r@[k]) && a@.subrange(0, i as int).contains(r@[k])),
            forall|k: int| 0 <= k < i && b@.contains(a@[k]) ==> #[trigger] r@.contains(a@[k]),
            r@.len() > 0 ==> i > 0 && r@[r@.len() - 1] <= a@[i - 1],
        decreases a@.len() - i,
    {
        if list_contains(b, a[i]) {
            let ghost before = r@;
            assert(forall|k: int| 0 <= k < i && b@.contains(a@[k]) ==> #[trigger] before.contains(a@[k]));
            r.push(a[i]);
            proof {
                assert forall|x: int, y: int| 0 <= x < y < r@.len() implies #[trigger] r@[x] < #[trigger] r@[y] by {
                    if y == r@.len() - 1 {
                        assert(before[before.len() - 1] <= a@[i - 1]);
                        assert(a@[i - 1] < a@[i as int]);
                        if x < before.len() - 1 {
                            assert(before[x] < before[before.len() - 1]);
                        }
                    }
                }
                assert forall|k: int| 0 <= k < r@.len() implies (b@.contains(#[trigger] r@[k]) && a@.subrange(0, i + 1).contains(r@[k])) by {
                    if k < before.len() {
                        let sp = a@.subrange(0, i as int);
                        let j = choose|j: int| 0 <= j < sp.len() && sp[j] == r@[k];
                        assert(a@.subrange(0, i + 1)[j] == r@[k]);
                    } else {
                        assert(a@.subrange(0, i + 1)[i as int] == r@[k]);
                    }
                }
                assert forall|k: int| 0 <= k < i + 1 && b@.contains(a@[k]) implies #[trigger] r@.contains(a@[k]) by {
                    if k < i {
                        assert(before.contains(a@[k]));
                        let j = choose|j: int| 0 <= j < before.len() && before[j] == a@[k];
                        assert(r@[j] == before[j]);
                    } else {
                        assert(r@[r@.len() - 1] == a@[k]);
                    }
                }
            }
        } else {
            proof {
                assert forall|k: int| 0 <= k < r@.len() implies (b@.contains(#[trigger] r@[k]) && a@.subrange(0, i + 1).contains(r@[k])) by {
                    let sp = a@.subrange(0, i as int);
                    let j = choose|j: int| 0 <= j < sp.len() && sp[j] == r@[k];
                    assert(a@.subrange(0, i + 1)[j] == r@[k]);
                }
                if r@.len() > 0 {
                    assert(a@[i - 1] < a@[i as int]);
                }
            }
        }
        i += 1;
    }
    proof {
        assert(a@.subrange(0, a@.len() as int) == a@);
        assert(r@.to_set() =~= a@.to_set().intersect(b@.to_set())) by {
            assert forall|y: u32| r@.to_set().contains(y) <==> a@.to_set().intersect(b@.to_set()).contains(y) by {
                if r@.contains(y) {
                    let j = choose|j: int| 0 <= j < r@.len() && r@[j] == y;
                    assert(b@.contains(r@[j]));
                }
                if a@.contains(y) && b@.contains(y) {
                    let j = choose|j: int| 0 <= j < a@.len() && a@[j] == y;
                    assert(r@.contains(a@[j]));
                }
            }
        }
    }
    r
}

/// The distinct entries of `l`, in increasing order.
pub fn sorted_set(l: &Vec<u32>) -> (r: Vec<u32>)
    ensures
        strictly_sorted(r@),
        r@.to_set() == l@.to_set(),
{
    let mut r: Vec<u32> = Vec::new();
    let mut i: usize = 0;
    proof {
        assert(r@.to_set() =~= l@.take(0).to_set());
    }
    while i < l.len()
        invariant
            i <= l@.len(),
            strictly_sorted(r@),
            r@.to_set() == l@.take(i as int).to_set(),
        decreases l@.len() - i,
    {
        let x = l[i];
        sorted_insert(&mut r, x);
        proof {
            let p = l@.take(i as int);
            let q = l@.take(i + 1);
            assert(q =~= p.push(x));
            assert(q.to_set() =~= p.to_set().insert(x)) by {
                assert forall|y: u32| q.to_set().contains(y) <==> p.to_set().insert(x).contains(y) by {
                    if q.contains(y) {
                        let j = choose|j: int| 0 <= j < q.len() && q[j] == y;
                        if j < p.len() {
                            assert(p[j] == y);
                        }
                    }
                    if p.contains(y) {
                        let j = choose|j: int| 0 <= j < p.len() && p[j] == y;
                        assert(q[j] == y);
                    }
                    if y == x {
                        assert(q[p.len() as int] == x);
                    }
                }
            }
        }
        i += 1;
    }
    proof {
        assert(l@.take(l@.len() as int) =~= l@);
    }
    r
}

} // verus!
