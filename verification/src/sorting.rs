use vstd::prelude::*;

verus! {

/// `order`, which is sorted by key, with `item` put behind every entry whose
/// key is not greater than its own.
pub open spec fn insert_by_key(order: Seq<usize>, keys: Seq<i128>, item: usize) -> Seq<usize>
    decreases order.len(),
{
    if order.len() == 0 {
        seq![item]
    } else if keys[order.last() as int] <= keys[item as int] {
        order.push(item)
    } else {
        insert_by_key(order.drop_last(), keys, item).push(order.last())
    }
}

/// The items in ascending order of their keys, items of equal key in the
/// order in which they stood. `keys[i]` is the key of item `i`.
pub open spec fn stable_order(items: Seq<usize>, keys: Seq<i128>) -> Seq<usize>
    decreases items.len(),
{
    if items.len() == 0 {
        Seq::empty()
    } else {
        insert_by_key(stable_order(items.drop_last(), keys), keys, items.last())
    }
}

/// The handles `0..n`, each at its own place.
pub open spec fn in_turn(n: nat) -> Seq<usize> {
    Seq::new(n, |i: int| i as usize)
}

/// The order with its entries `lo..hi` put in stable order and every other
/// entry left where it is.
pub open spec fn sorted_slice(order: Seq<usize>, lo: int, hi: int, keys: Seq<i128>) -> Seq<usize> {
    order.subrange(0, lo) + stable_order(order.subrange(lo, hi), keys) + order.subrange(
        hi,
        order.len() as int,
    )
}

/// Whether the keys of the items never fall from one entry to the next.
pub open spec fn ascending(order: Seq<usize>, keys: Seq<i128>) -> bool {
    forall|i: int, j: int|
        0 <= i <= j < order.len() ==> keys[#[trigger] order[i] as int] <= keys[#[trigger] order[j] as int]
}

/// Inserting keeps what was there and adds the item, once.
pub proof fn lemma_insert_holds(order: Seq<usize>, keys: Seq<i128>, item: usize)
    ensures
        insert_by_key(order, keys, item).len() == order.len() + 1,
        forall|v: usize|
            #[trigger] insert_by_key(order, keys, item).contains(v) <==> (order.contains(v) || v
                == item),
        order.no_duplicates() && !order.contains(item) ==> insert_by_key(
            order,
            keys,
            item,
        ).no_duplicates(),
    decreases order.len(),
{
    let out = insert_by_key(order, keys, item);
    if order.len() == 0 {
        assert(out[0] == item);
        assert forall|v: usize| out.contains(v) <==> (order.contains(v) || v == item) by {
            if v == item {
                assert(out[0] == v);
            }
        }
    } else if keys[order.last() as int] <= keys[item as int] {
        assert forall|v: usize| out.contains(v) <==> (order.contains(v) || v == item) by {
            if order.contains(v) {
                let i = choose|i: int| 0 <= i < order.len() && order[i] == v;
                assert(out[i] == v);
            }
            if v == item {
                assert(out[order.len() as int] == v);
            }
        }
    } else {
        let rest = order.drop_last();
        let inner = insert_by_key(rest, keys, item);
        lemma_insert_holds(rest, keys, item);
        assert(order =~= rest.push(order.last()));
        assert forall|v: usize| out.contains(v) <==> (order.contains(v) || v == item) by {
            if out.contains(v) {
                let i = choose|i: int| 0 <= i < out.len() && out[i] == v;
                if i < inner.len() {
                    assert(inner[i] == v);
                    assert(inner.contains(v));
                    if rest.contains(v) {
                        let j = choose|j: int| 0 <= j < rest.len() && rest[j] == v;
                        assert(order[j] == v);
                    }
                } else {
                    assert(order[order.len() - 1] == v);
                }
            }
            if order.contains(v) {
                let j = choose|j: int| 0 <= j < order.len() && order[j] == v;
                if j < rest.len() {
                    assert(rest[j] == v);
                    assert(rest.contains(v));
                    assert(inner.contains(v));
                    let i = choose|i: int| 0 <= i < inner.len() && inner[i] == v;
                    assert(out[i] == v);
                } else {
                    assert(out[inner.len() as int] == v);
                }
            }
            if v == item {
                assert(inner.contains(v));
                let i = choose|i: int| 0 <= i < inner.len() && inner[i] == v;
                assert(out[i] == v);
            }
        }
        if order.no_duplicates() && !order.contains(item) {
            assert(rest.no_duplicates());
            assert(!rest.contains(item)) by {
                if rest.contains(item) {
                    let j = choose|j: int| 0 <= j < rest.len() && rest[j] == item;
                    assert(order[j] == item);
                }
            }
            assert(!inner.contains(order.last())) by {
                if rest.contains(order.last()) {
                    let j = choose|j: int| 0 <= j < rest.len() && rest[j] == order.last();
                    assert(order[j] == order[order.len() - 1]);
                }
            }
            assert forall|i: int, j: int| 0 <= i < out.len() && 0 <= j < out.len() && i != j implies out[i] != out[j] by {
                if i < inner.len() && j < inner.len() {
                } else if i < inner.len() {
                    assert(inner.contains(inner[i]));
                } else {
                    assert(inner.contains(inner[j]));
                }
            }
        }
    }
}

/// Inserting into an ascending order leaves it ascending.
pub proof fn lemma_insert_ascending(order: Seq<usize>, keys: Seq<i128>, item: usize)
    requires
        ascending(order, keys),
    ensures
        ascending(insert_by_key(order, keys, item), keys),
    decreases order.len(),
{
    let out = insert_by_key(order, keys, item);
    if order.len() == 0 {
    } else if keys[order.last() as int] <= keys[item as int] {
        assert forall|i: int, j: int| 0 <= i <= j < out.len() implies keys[#[trigger] out[i] as int] <= keys[#[trigger] out[j] as int] by {
            if j < order.len() {
                assert(out[i] == order[i] && out[j] == order[j]);
            } else if i < order.len() {
                assert(out[i] == order[i]);
                assert(keys[order[i] as int] <= keys[order[order.len() - 1] as int]);
            }
        }
    } else {
        let rest = order.drop_last();
        let inner = insert_by_key(rest, keys, item);
        assert(ascending(rest, keys)) by {
            assert forall|i: int, j: int| 0 <= i <= j < rest.len() implies keys[#[trigger] rest[i] as int] <= keys[#[trigger] rest[j] as int] by {
                assert(rest[i] == order[i] && rest[j] == order[j]);
            }
        }
        lemma_insert_ascending(rest, keys, item);
        lemma_insert_holds(rest, keys, item);
        assert forall|i: int, j: int| 0 <= i <= j < out.len() implies keys[#[trigger] out[i] as int] <= keys[#[trigger] out[j] as int] by {
            if j < inner.len() {
                assert(out[i] == inner[i] && out[j] == inner[j]);
            } else if i < inner.len() {
                assert(out[i] == inner[i]);
                assert(inner.contains(inner[i]));
                if rest.contains(inner[i]) {
                    let k = choose|k: int| 0 <= k < rest.len() && rest[k] == inner[i];
                    assert(order[k] == inner[i]);
                    assert(keys[order[k] as int] <= keys[order[order.len() - 1] as int]);
                }
            }
        }
    }
}

/// The stable order holds exactly the items, each as often as it stood there
/// if none stood there twice, and it is ascending.
pub proof fn lemma_stable_order(items: Seq<usize>, keys: Seq<i128>)
    ensures
        stable_order(items, keys).len() == items.len(),
        forall|v: usize| #[trigger] stable_order(items, keys).contains(v) <==> items.contains(v),
        items.no_duplicates() ==> stable_order(items, keys).no_duplicates(),
        ascending(stable_order(items, keys), keys),
    decreases items.len(),
{
    if items.len() > 0 {
        let rest = items.drop_last();
        let sorted = stable_order(rest, keys);
        lemma_stable_order(rest, keys);
        lemma_insert_holds(sorted, keys, items.last());
        lemma_insert_ascending(sorted, keys, items.last());
        assert forall|v: usize| stable_order(items, keys).contains(v) <==> items.contains(v) by {
            if items.contains(v) {
                let j = choose|j: int| 0 <= j < items.len() && items[j] == v;
                if j < rest.len() {
                    assert(rest[j] == v);
                }
            }
            if rest.contains(v) {
                let j = choose|j: int| 0 <= j < rest.len() && rest[j] == v;
                assert(items[j] == v);
            }
            if v == items.last() {
                assert(items[items.len() - 1] == v);
            }
        }
        if items.no_duplicates() {
            assert(rest.no_duplicates());
            assert(!rest.contains(items.last())) by {
                if rest.contains(items.last()) {
                    let j = choose|j: int| 0 <= j < rest.len() && rest[j] == items.last();
                    assert(items[j] == items[items.len() - 1]);
                }
            }
        }
    }
}

/// Puts `item` into `out`, which is in stable order, behind every entry whose
/// key is not greater than its own.
fn insert_sorted(out: &mut Vec<usize>, keys: &Vec<i128>, item: usize)
    requires
        item < keys@.len(),
        forall|i: int| 0 <= i < old(out)@.len() ==> old(out)@[i] < keys@.len(),
    ensures
        final(out)@ == insert_by_key(old(out)@, keys@, item),
{
    let mut pos: usize = out.len();
    let ghost start = out@;
    proof {
        assert(start.subrange(0, pos as int) =~= start);
        assert(start.subrange(pos as int, start.len() as int) =~= Seq::<usize>::empty());
        assert(insert_by_key(start, keys@, item) + Seq::<usize>::empty() =~= insert_by_key(
            start,
            keys@,
            item,
        ));
    }
    while pos > 0 && keys[out[pos - 1]] > keys[item]
        invariant
            out@ == start,
            pos <= start.len(),
            item < keys@.len(),
            forall|i: int| 0 <= i < start.len() ==> start[i] < keys@.len(),
            insert_by_key(start, keys@, item) == insert_by_key(
                start.subrange(0, pos as int),
                keys@,
                item,
            ) + start.subrange(pos as int, start.len() as int),
        decreases pos,
    {
        proof {
            let head = start.subrange(0, pos as int);
            assert(head.last() == start[pos - 1]);
            assert(head.drop_last() =~= start.subrange(0, pos - 1));
            assert(insert_by_key(head, keys@, item) == insert_by_key(
                head.drop_last(),
                keys@,
                item,
            ).push(head.last()));
            assert(insert_by_key(head.drop_last(), keys@, item).push(head.last())
                + start.subrange(pos as int, start.len() as int) =~= insert_by_key(
                head.drop_last(),
                keys@,
                item,
            ) + start.subrange(pos - 1, start.len() as int));
        }
        pos -= 1;
    }
    proof {
        let head = start.subrange(0, pos as int);
        if pos > 0 {
            assert(head.last() == start[pos - 1]);
        }
        assert(insert_by_key(head, keys@, item) =~= head.push(item));
        assert(head.push(item) + start.subrange(pos as int, start.len() as int) =~= start.insert(
            pos as int,
            item,
        ));
    }
    out.insert(pos, item);
}

/// Sorts the entries `lo..hi` of `order` by the keys of the items they name,
/// entries of equal key staying in their order. Every other entry stays.
pub fn sort_range(order: &mut Vec<usize>, lo: usize, hi: usize, keys: &Vec<i128>)
    requires
        lo <= hi <= old(order)@.len(),
        forall|i: int| lo <= i < hi ==> old(order)@[i] < keys@.len(),
    ensures
        final(order)@ == sorted_slice(old(order)@, lo as int, hi as int, keys@),
{
    let ghost start = order@;
    let mut out: Vec<usize> = Vec::new();
    let mut i: usize = lo;
    while i < hi
        invariant
            lo <= i <= hi <= start.len(),
            order@ == start,
            forall|k: int| lo <= k < hi ==> start[k] < keys@.len(),
            out@ == stable_order(start.subrange(lo as int, i as int), keys@),
        decreases hi - i,
    {
        proof {
            lemma_stable_order(start.subrange(lo as int, i as int), keys@);
            assert forall|k: int| 0 <= k < out@.len() implies out@[k] < keys@.len() by {
                assert(out@.contains(out@[k]));
                let v = out@[k];
                let part = start.subrange(lo as int, i as int);
                assert(part.contains(v));
                let j = choose|j: int| 0 <= j < part.len() && part[j] == v;
                assert(start[lo + j] == v);
            }
            let next = start.subrange(lo as int, i + 1);
            assert(next.drop_last() =~= start.subrange(lo as int, i as int));
            assert(next.last() == start[i as int]);
        }
        insert_sorted(&mut out, keys, order[i]);
        i += 1;
    }
    proof {
        lemma_stable_order(start.subrange(lo as int, hi as int), keys@);
    }
    let mut j: usize = 0;
    let span: usize = hi - lo;
    while j < span
        invariant
            lo <= hi <= start.len(),
            span == hi - lo,
            j <= span,
            out@.len() == span,
            order@.len() == start.len(),
            order@ =~= start.subrange(0, lo as int) + out@.subrange(0, j as int) + start.subrange(
                lo + j,
                start.len() as int,
            ),
        decreases span - j,
    {
        order[lo + j] = out[j];
        j += 1;
    }
    assert(out@.subrange(0, span as int) =~= out@);
}

/// Sorting a slice of an order that names each of `n` items once leaves an
/// order that does so, with the same items inside the slice and every entry
/// outside it where it was.
pub proof fn lemma_sorted_slice(order: Seq<usize>, lo: int, hi: int, keys: Seq<i128>, n: int)
    requires
        0 <= lo <= hi <= order.len(),
        order.len() == n,
        forall|i: int| 0 <= i < order.len() ==> #[trigger] order[i] < n,
        order.no_duplicates(),
    ensures
        sorted_slice(order, lo, hi, keys).len() == n,
        forall|i: int|
            0 <= i < n ==> #[trigger] sorted_slice(order, lo, hi, keys)[i] < n,
        sorted_slice(order, lo, hi, keys).no_duplicates(),
        forall|i: int|
            0 <= i < lo || hi <= i < n ==> #[trigger] sorted_slice(order, lo, hi, keys)[i]
                == order[i],
        sorted_slice(order, lo, hi, keys).subrange(lo, hi) == stable_order(
            order.subrange(lo, hi),
            keys,
        ),
{
    let part = order.subrange(lo, hi);
    let sorted = stable_order(part, keys);
    let out = sorted_slice(order, lo, hi, keys);
    lemma_stable_order(part, keys);
    assert(part.no_duplicates());
    assert(out.subrange(lo, hi) =~= sorted);
    assert forall|i: int| lo <= i < hi implies part.contains(#[trigger] out[i]) by {
        assert(out[i] == sorted[i - lo]);
        assert(sorted.contains(sorted[i - lo]));
    }
    assert forall|i: int| 0 <= i < n implies #[trigger] out[i] < n by {
        if lo <= i < hi {
            assert(part.contains(out[i]));
            let j = choose|j: int| 0 <= j < part.len() && part[j] == out[i];
            assert(order[lo + j] == out[i]);
        } else {
            assert(out[i] == order[i]);
        }
    }
    assert forall|i: int, j: int| 0 <= i < n && 0 <= j < n && i != j implies out[i] != out[j] by {
        let inside_i = lo <= i < hi;
        let inside_j = lo <= j < hi;
        if inside_i && inside_j {
            assert(out[i] == sorted[i - lo] && out[j] == sorted[j - lo]);
        } else if inside_i {
            assert(part.contains(out[i]));
            let k = choose|k: int| 0 <= k < part.len() && part[k] == out[i];
            assert(order[lo + k] == out[i]);
            assert(out[j] == order[j]);
        } else if inside_j {
            assert(part.contains(out[j]));
            let k = choose|k: int| 0 <= k < part.len() && part[k] == out[j];
            assert(order[lo + k] == out[j]);
            assert(out[i] == order[i]);
        } else {
            assert(out[i] == order[i] && out[j] == order[j]);
        }
    }
}

} // verus!
