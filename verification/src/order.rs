//! Lists of places in order: the proofs that the sorted lists of this crate
//! share. A place is an index into some list; `before` says which of two
//! places comes first.

use crate::text::{bytes_le, lemma_lex_le_total_order, lex_le, texts_bytes};
use vstd::prelude::*;
use vstd::slice::*;
use vstd::string::*;
use vstd::utf8::*;

verus! {

/// Whether `before` orders all places strictly: no place comes before
/// itself, the relation is transitive, and of two different places one comes
/// before the other.
pub open spec fn is_strict_order(before: spec_fn(int, int) -> bool) -> bool {
    &&& forall|a: int| !#[trigger] before(a, a)
    &&& forall|a: int, b: int, c: int| #[trigger] before(a, b) && #[trigger] before(b, c) ==> before(a, c)
    &&& forall|a: int, b: int| a != b ==> #[trigger] before(a, b) || before(b, a)
}

/// Whether the listed places stand in the order of `before`.
pub open spec fn in_order(before: spec_fn(int, int) -> bool, ids: Seq<usize>) -> bool {
    forall|a: int, b: int|
        0 <= a < b < ids.len() ==> before(#[trigger] ids[a] as int, #[trigger] ids[b] as int)
}

/// Putting a place between those that come before it and those that come
/// after it keeps the order, and adds that place only.
pub proof fn lemma_insert_in_order(
    before: spec_fn(int, int) -> bool,
    ids: Seq<usize>,
    pos: int,
    j: usize,
)
    requires
        in_order(before, ids),
        0 <= pos <= ids.len(),
        forall|k: int| pos <= k < ids.len() ==> before(j as int, #[trigger] ids[k] as int),
        forall|k: int| 0 <= k < pos ==> before(#[trigger] ids[k] as int, j as int),
    ensures
        in_order(before, ids.insert(pos, j)),
        forall|x: usize|
            #![trigger ids.insert(pos, j).contains(x)]
            ids.insert(pos, j).contains(x) <==> ids.contains(x) || x == j,
        ids.insert(pos, j).len() == ids.len() + 1,
{
    let out = ids.insert(pos, j);
    ids.insert_ensures(pos, j);
    assert forall|a: int, b: int| 0 <= a < b < out.len() implies before(
        #[trigger] out[a] as int,
        #[trigger] out[b] as int,
    ) by {
        if b < pos {
            assert(out[a] == ids[a] && out[b] == ids[b]);
        } else if b == pos {
            assert(out[a] == ids[a]);
        } else if a < pos {
            assert(out[a] == ids[a] && out[b] == ids[b - 1]);
        } else if a == pos {
            assert(out[b] == ids[b - 1]);
        } else {
            assert(out[a] == ids[a - 1] && out[b] == ids[b - 1]);
        }
    }
    assert forall|x: usize| #![trigger out.contains(x)] out.contains(x) <==> ids.contains(x) || x
        == j by {
        if out.contains(x) {
            let k = choose|k: int| 0 <= k < out.len() && out[k] == x;
            if k < pos {
                assert(ids[k] == x);
            } else if k > pos {
                assert(ids[k - 1] == x);
            }
        }
        if ids.contains(x) {
            let k = choose|k: int| 0 <= k < ids.len() && ids[k] == x;
            if k < pos {
                assert(out[k] == x);
            } else {
                assert(out[k + 1] == x);
            }
        }
        if x == j {
            assert(out[pos] == x);
        }
    }
}

/// Two lists in the order of `before` that hold the same places are one
/// list.
pub proof fn lemma_same_members_same_order(
    before: spec_fn(int, int) -> bool,
    x: Seq<usize>,
    y: Seq<usize>,
)
    requires
        is_strict_order(before),
        in_order(before, x),
        in_order(before, y),
        forall|j: usize|
            #![trigger x.contains(j)]
            #![trigger y.contains(j)]
            x.contains(j) <==> y.contains(j),
    ensures
        x == y,
    decreases x.len(),
{
    if x.len() == 0 {
        if y.len() > 0 {
            assert(y.contains(y[0]));
        }
        assert(x =~= y);
    } else {
        assert(x.contains(x[0]));
        let i = choose|i: int| 0 <= i < y.len() && y[i] == x[0];
        assert(y.contains(y[0]));
        let k = choose|k: int| 0 <= k < x.len() && x[k] == y[0];
        if i != 0 && k != 0 {
            assert(before(y[0] as int, y[i] as int));
            assert(before(x[0] as int, x[k] as int));
            assert(before(x[0] as int, x[0] as int));
        }
        assert(x[0] == y[0]);
        let xs = x.drop_first();
        let ys = y.drop_first();
        assert forall|j: usize|
            #![trigger xs.contains(j)]
            #![trigger ys.contains(j)]
            xs.contains(j) <==> ys.contains(j) by {
            if xs.contains(j) {
                let a = choose|a: int| 0 <= a < xs.len() && xs[a] == j;
                assert(x[a + 1] == j);
                assert(before(x[0] as int, x[a + 1] as int));
                assert(x.contains(j));
                let b = choose|b: int| 0 <= b < y.len() && y[b] == j;
                assert(b != 0);
                assert(ys[b - 1] == j);
            }
            if ys.contains(j) {
                let a = choose|a: int| 0 <= a < ys.len() && ys[a] == j;
                assert(y[a + 1] == j);
                assert(before(y[0] as int, y[a + 1] as int));
                assert(y.contains(j));
                let b = choose|b: int| 0 <= b < x.len() && x[b] == j;
                assert(b != 0);
                assert(xs[b - 1] == j);
            }
        }
        assert(in_order(before, xs)) by {
            assert forall|a: int, b: int| 0 <= a < b < xs.len() implies before(
                #[trigger] xs[a] as int,
                #[trigger] xs[b] as int,
            ) by {
                assert(before(x[a + 1] as int, x[b + 1] as int));
            }
        }
        assert(in_order(before, ys)) by {
            assert forall|a: int, b: int| 0 <= a < b < ys.len() implies before(
                #[trigger] ys[a] as int,
                #[trigger] ys[b] as int,
            ) by {
                assert(before(y[a + 1] as int, y[b + 1] as int));
            }
        }
        lemma_same_members_same_order(before, xs, ys);
        assert(x =~= seq![x[0]] + xs);
        assert(y =~= seq![y[0]] + ys);
    }
}

/// Where a place belongs among listed places that do not hold it: behind
/// those that come before it and before those that come after it.
pub proof fn lemma_position(before: spec_fn(int, int) -> bool, ids: Seq<usize>, x: usize) -> (pos:
    int)
    requires
        is_strict_order(before),
        in_order(before, ids),
        !ids.contains(x),
    ensures
        0 <= pos <= ids.len(),
        forall|k: int| 0 <= k < pos ==> before(#[trigger] ids[k] as int, x as int),
        forall|k: int| pos <= k < ids.len() ==> before(x as int, #[trigger] ids[k] as int),
    decreases ids.len(),
{
    if ids.len() == 0 {
        0
    } else {
        let last = ids.last();
        assert(ids.contains(last));
        if before(last as int, x as int) {
            assert forall|k: int| 0 <= k < ids.len() implies before(
                #[trigger] ids[k] as int,
                x as int,
            ) by {
                if k < ids.len() - 1 {
                    assert(before(ids[k] as int, ids[ids.len() - 1] as int));
                }
            }
            ids.len() as int
        } else {
            assert(before(x as int, last as int));
            let front = ids.drop_last();
            assert(in_order(before, front)) by {
                assert forall|a: int, b: int| 0 <= a < b < front.len() implies before(
                    #[trigger] front[a] as int,
                    #[trigger] front[b] as int,
                ) by {
                    assert(before(ids[a] as int, ids[b] as int));
                }
            }
            assert(!front.contains(x)) by {
                if front.contains(x) {
                    let k = choose|k: int| 0 <= k < front.len() && front[k] == x;
                    assert(ids[k] == x);
                }
            }
            let pos = lemma_position(before, front, x);
            assert forall|k: int| pos <= k < ids.len() implies before(
                x as int,
                #[trigger] ids[k] as int,
            ) by {
                if k < front.len() {
                    assert(front[k] == ids[k]);
                }
            }
            assert forall|k: int| 0 <= k < pos implies before(#[trigger] ids[k] as int, x as int) by {
                assert(front[k] == ids[k]);
            }
            pos
        }
    }
}

/// Whether `ids` lists every place below `n` once, in the order of
/// `before`.
pub open spec fn is_ordering(before: spec_fn(int, int) -> bool, n: nat, ids: Seq<usize>) -> bool {
    &&& in_order(before, ids)
    &&& forall|j: usize| #![trigger ids.contains(j)] ids.contains(j) <==> j < n
}

/// The places below `n` in the order of `before`.
pub open spec fn ordering(before: spec_fn(int, int) -> bool, n: nat) -> Seq<usize> {
    choose|ids: Seq<usize>| is_ordering(before, n, ids)
}

/// The places below `bound` can be listed in order.
proof fn lemma_order_up_to(before: spec_fn(int, int) -> bool, bound: nat) -> (ids: Seq<usize>)
    requires
        is_strict_order(before),
        bound <= usize::MAX,
    ensures
        is_ordering(before, bound, ids),
        ids.len() == bound,
    decreases bound,
{
    if bound == 0 {
        Seq::empty()
    } else {
        let front = lemma_order_up_to(before, (bound - 1) as nat);
        let x = (bound - 1) as usize;
        let pos = lemma_position(before, front, x);
        lemma_insert_in_order(before, front, pos, x);
        front.insert(pos, x)
    }
}

/// A strict order puts the places below `n` in one order only, and
/// `ordering` names it.
pub proof fn lemma_ordering(before: spec_fn(int, int) -> bool, n: nat)
    requires
        is_strict_order(before),
        n <= usize::MAX,
    ensures
        is_ordering(before, n, ordering(before, n)),
        ordering(before, n).len() == n,
        forall|ids: Seq<usize>| #[trigger] is_ordering(before, n, ids) ==> ids == ordering(before, n),
{
    let made = lemma_order_up_to(before, n);
    assert(is_ordering(before, n, made));
    let named = ordering(before, n);
    lemma_same_members_same_order(before, made, named);
    assert forall|ids: Seq<usize>| #[trigger] is_ordering(before, n, ids) implies ids == named by {
        lemma_same_members_same_order(before, ids, named);
    }
}

/// Whether the place `a` comes before the place `b` by their keys: the
/// lesser key first, bytewise, and places of one key in their own order.
pub open spec fn key_before(keys: Seq<Seq<u8>>, a: int, b: int) -> bool {
    ||| keys[a] != keys[b] && lex_le(keys[a], keys[b])
    ||| keys[a] == keys[b] && a < b
}

/// The order by keys as a relation on places.
pub open spec fn key_order(keys: Seq<Seq<u8>>) -> spec_fn(int, int) -> bool {
    |a: int, b: int| key_before(keys, a, b)
}

/// The order by keys is a strict order of the places.
pub proof fn lemma_key_order_strict(keys: Seq<Seq<u8>>)
    ensures
        is_strict_order(key_order(keys)),
{
    let before = key_order(keys);
    assert forall|a: int, b: int, c: int| #[trigger] before(a, b) && #[trigger] before(b, c) implies before(
        a,
        c,
    ) by {
        lemma_lex_le_total_order(keys[a], keys[b], keys[c]);
        lemma_lex_le_total_order(keys[c], keys[a], keys[b]);
    }
    assert forall|a: int, b: int| a != b implies #[trigger] before(a, b) || before(b, a) by {
        lemma_lex_le_total_order(keys[a], keys[b], keys[a]);
    }
}

/// Sorts the places of the keys: the lesser key first, bytewise, and places
/// of one key in their own order.
pub fn sort_by_keys(keys: &Vec<String>) -> (order: Vec<usize>)
    ensures
        order@ == ordering(key_order(texts_bytes(keys@)), keys@.len()),
        is_ordering(key_order(texts_bytes(keys@)), keys@.len(), order@),
        order@.len() == keys@.len(),
{
    let ghost bytes = texts_bytes(keys@);
    let ghost before = key_order(bytes);
    let n = keys.len();
    let mut order: Vec<usize> = Vec::new();
    let mut j: usize = 0;
    proof {
        lemma_key_order_strict(bytes);
    }
    while j < n
        invariant
            bytes == texts_bytes(keys@),
            before == key_order(bytes),
            is_strict_order(before),
            n == keys@.len(),
            j <= n,
            order@.len() == j,
            is_ordering(before, j as nat, order@),
        decreases n - j,
    {
        let key = keys[j].as_str().as_bytes();
        let mut pos: usize = order.len();
        proof {
            assert forall|k: int| 0 <= k < order@.len() implies #[trigger] order@[k] < j by {
                assert(order@.contains(order@[k]));
            }
        }
        while pos > 0 && !bytes_le(keys[order[pos - 1]].as_str().as_bytes(), key)
            invariant
                bytes == texts_bytes(keys@),
                before == key_order(bytes),
                n == keys@.len(),
                j < n,
                key@ == bytes[j as int],
                pos <= order@.len(),
                forall|k: int| 0 <= k < order@.len() ==> #[trigger] order@[k] < j,
                forall|k: int| pos <= k < order@.len() ==> before(j as int, #[trigger] order@[k] as int),
            decreases pos,
        {
            proof {
                let other = bytes[order@[pos - 1] as int];
                lemma_lex_le_total_order(other, key@, other);
            }
            pos = pos - 1;
        }
        proof {
            assert forall|k: int| 0 <= k < pos implies before(#[trigger] order@[k] as int, j as int) by {
                let last = order@[pos - 1] as int;
                assert(before(last, j as int));
                if k < pos - 1 {
                    assert(before(order@[k] as int, order@[pos - 1] as int));
                }
            }
            lemma_insert_in_order(before, order@, pos as int, j);
            assert(!order@.contains(j));
        }
        order.insert(pos, j);
        j = j + 1;
    }
    proof {
        lemma_ordering(before, n as nat);
    }
    order
}

} // verus!
