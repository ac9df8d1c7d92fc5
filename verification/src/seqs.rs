//! Small sequence utilities on lists of ids: removing a value and
//! appending without duplicates.

use vstd::prelude::*;

verus! {

/// Every id in `l` is below `n`.
pub open spec fn ids_below(l: Seq<usize>, n: nat) -> bool {
    forall|k: int| 0 <= k < l.len() ==> #[trigger] l[k] < n
}

/// A list of distinct ids, all below `n`.
pub open spec fn id_list(l: Seq<usize>, n: nat) -> bool {
    l.no_duplicates() && ids_below(l, n)
}

/// `l` with every occurrence of `x` left out, order kept.
pub open spec fn without(l: Seq<usize>, x: usize) -> Seq<usize>
    decreases l.len(),
{
    if l.len() == 0 {
        l
    } else {
        let rest = without(l.drop_last(), x);
        if l.last() == x {
            rest
        } else {
            rest.push(l.last())
        }
    }
}

/// `l` followed by those elements of `m`, in order, that are not yet present.
pub open spec fn merge(l: Seq<usize>, m: Seq<usize>) -> Seq<usize>
    decreases m.len(),
{
    if m.len() == 0 {
        l
    } else {
        let rest = merge(l, m.drop_last());
        if rest.contains(m.last()) {
            rest
        } else {
            rest.push(m.last())
        }
    }
}

/// `l` with `x` appended unless it is already there.
pub open spec fn add_unique(l: Seq<usize>, x: usize) -> Seq<usize> {
    if l.contains(x) {
        l
    } else {
        l.push(x)
    }
}

pub proof fn lemma_without(l: Seq<usize>, x: usize)
    ensures
        forall|y: usize| #[trigger] without(l, x).contains(y) <==> (l.contains(y) && y != x),
        l.no_duplicates() ==> without(l, x).no_duplicates(),
        without(l, x).len() <= l.len(),
        !l.contains(x) ==> without(l, x) == l,
        l.no_duplicates() ==> without(l, x).len() + (if l.contains(x) {
            1int
        } else {
            0int
        }) == l.len(),
    decreases l.len(),
{
    if l.len() > 0 {
        let d = l.drop_last();
        lemma_without(d, x);
        assert(l == d.push(l.last()));
        let r = without(d, x);
        assert forall|y: usize| #[trigger] without(l, x).contains(y) <==> (l.contains(y) && y != x) by {
            let w = without(l, x);
            assert(l.contains(y) <==> (d.contains(y) || y == l.last())) by {
                if l.contains(y) {
                    let i = choose|i: int| 0 <= i < l.len() && l[i] == y;
                    if i < l.len() - 1 {
                        assert(d[i] == y);
                    }
                }
                if d.contains(y) {
                    let i = choose|i: int| 0 <= i < d.len() && d[i] == y;
                    assert(l[i] == y);
                }
                if y == l.last() {
                    assert(l[l.len() - 1] == y);
                }
            }
            if l.last() != x {
                assert(w == r.push(l.last()));
                assert(w.contains(y) <==> (r.contains(y) || y == l.last())) by {
                    if w.contains(y) {
                        let j = choose|j: int| 0 <= j < w.len() && w[j] == y;
                        if j < r.len() {
                            assert(r[j] == y);
                        }
                    }
                    if r.contains(y) {
                        let j = choose|j: int| 0 <= j < r.len() && r[j] == y;
                        assert(w[j] == y);
                    }
                    if y == l.last() {
                        assert(w[w.len() - 1] == y);
                    }
                }
            }
        }
        if l.no_duplicates() {
            assert(d.no_duplicates()) by {
                assert forall|i: int, j: int| 0 <= i < d.len() && 0 <= j < d.len() && i != j implies d[i] != d[j] by {
                    assert(d[i] == l[i]);
                    assert(d[j] == l[j]);
                }
            }
            if l.last() != x {
                assert(!d.contains(l.last())) by {
                    if d.contains(l.last()) {
                        let i = choose|i: int| 0 <= i < d.len() && d[i] == l.last();
                        assert(l[i] == l[l.len() - 1]);
                    }
                }
                assert(!r.contains(l.last()));
            }
        }
        if l.no_duplicates() {
            assert(l.contains(x) <==> (d.contains(x) || l.last() == x)) by {
                if l.contains(x) {
                    let i = choose|i: int| 0 <= i < l.len() && l[i] == x;
                    if i < l.len() - 1 {
                        assert(d[i] == x);
                    }
                }
                if d.contains(x) {
                    let i = choose|i: int| 0 <= i < d.len() && d[i] == x;
                    assert(l[i] == x);
                }
            }
            if l.last() == x {
                assert(!d.contains(x)) by {
                    if d.contains(x) {
                        let i = choose|i: int| 0 <= i < d.len() && d[i] == x;
                        assert(l[i] == l[l.len() - 1]);
                    }
                }
            }
        }
        if !l.contains(x) {
            assert(!d.contains(x)) by {
                if d.contains(x) {
                    let i = choose|i: int| 0 <= i < d.len() && d[i] == x;
                    assert(l[i] == x);
                }
            }
            assert(l.last() != x) by {
                assert(l[l.len() - 1] == l.last());
            }
        }
    }
}

pub proof fn lemma_merge(l: Seq<usize>, m: Seq<usize>)
    ensures
        forall|y: usize| #[trigger] merge(l, m).contains(y) <==> (l.contains(y) || m.contains(y)),
        l.no_duplicates() ==> merge(l, m).no_duplicates(),
        merge(l, m).len() >= l.len(),
        forall|k: int| 0 <= k < l.len() ==> #[trigger] merge(l, m)[k] == l[k],
    decreases m.len(),
{
    if m.len() > 0 {
        let d = m.drop_last();
        lemma_merge(l, d);
        let r = merge(l, d);
        assert(m == d.push(m.last()));
        assert forall|y: usize| #[trigger] merge(l, m).contains(y) <==> (l.contains(y) || m.contains(y)) by {
            if m.contains(y) {
                let i = choose|i: int| 0 <= i < m.len() && m[i] == y;
                if i < m.len() - 1 {
                    assert(d[i] == y);
                    assert(d.contains(y));
                    assert(r.contains(y));
                    let j = choose|j: int| 0 <= j < r.len() && r[j] == y;
                    assert(merge(l, m)[j] == y);
                } else if !r.contains(y) {
                    assert(merge(l, m)[merge(l, m).len() - 1] == y);
                }
            }
            if l.contains(y) {
                assert(r.contains(y));
                let j = choose|j: int| 0 <= j < r.len() && r[j] == y;
                assert(merge(l, m)[j] == y);
            }
            if merge(l, m).contains(y) {
                let j = choose|j: int| 0 <= j < merge(l, m).len() && merge(l, m)[j] == y;
                if j < r.len() {
                    assert(r[j] == y);
                    assert(r.contains(y));
                    if d.contains(y) {
                        let i = choose|i: int| 0 <= i < d.len() && d[i] == y;
                        assert(m[i] == y);
                    }
                } else {
                    assert(m[m.len() - 1] == y);
                }
            }
        }
    }
}

/// A list of distinct ids below `n` has at most `n` elements.
pub proof fn lemma_id_list_len(l: Seq<usize>, n: nat)
    requires
        id_list(l, n),
    ensures
        l.len() <= n,
    decreases n,
{
    if n == 0 {
        if l.len() > 0 {
            assert(l[0] < n);
        }
    } else {
        let x = (n - 1) as usize;
        lemma_without(l, x);
        let w = without(l, x);
        assert(ids_below(w, (n - 1) as nat)) by {
            assert forall|k: int| 0 <= k < w.len() implies #[trigger] w[k] < (n - 1) as nat by {
                assert(w.contains(w[k]));
                let j = choose|j: int| 0 <= j < l.len() && l[j] == w[k];
                assert(l[j] < n);
            }
        }
        lemma_id_list_len(w, (n - 1) as nat);
    }
}

/// Removes every occurrence of `x` from `list`.
pub fn remove_id(list: &Vec<usize>, x: usize) -> (res: Vec<usize>)
    ensures
        res@ == without(list@, x),
{
    let mut res: Vec<usize> = Vec::new();
    let mut k: usize = 0;
    while k < list.len()
        invariant
            k <= list.len(),
            res@ == without(list@.take(k as int), x),
        decreases list.len() - k,
    {
        assert(list@.take(k as int + 1).drop_last() == list@.take(k as int));
        if list[k] != x {
            res.push(list[k]);
        }
        k = k + 1;
    }
    assert(list@.take(list.len() as int) == list@);
    res
}

/// Whether `list` holds `x`.
pub fn holds_id(list: &Vec<usize>, x: usize) -> (res: bool)
    ensures
        res == list@.contains(x),
{
    let mut k: usize = 0;
    while k < list.len()
        invariant
            k <= list.len(),
            forall|j: int| 0 <= j < k ==> list@[j] != x,
        decreases list.len() - k,
    {
        if list[k] == x {
            return true;
        }
        k = k + 1;
    }
    false
}

/// Appends to `list` each element of `more` that it does not yet hold.
pub fn merge_ids(list: &mut Vec<usize>, more: &Vec<usize>)
    ensures
        final(list)@ == merge(old(list)@, more@),
{
    let ghost start = list@;
    let mut k: usize = 0;
    while k < more.len()
        invariant
            k <= more.len(),
            list@ == merge(start, more@.take(k as int)),
        decreases more.len() - k,
    {
        assert(more@.take(k as int + 1).drop_last() == more@.take(k as int));
        let x = more[k];
        if !holds_id(list, x) {
            list.push(x);
        }
        k = k + 1;
    }
    assert(more@.take(more.len() as int) == more@);
}

} // verus!
