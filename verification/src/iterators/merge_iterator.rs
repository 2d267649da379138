use crate::error::Error;
use crate::iterators::merge_model::{
    drop_key, head_before, is_front, lemma_head_before_total,
    lemma_head_before_transitive, lemma_merged_empty, lemma_merged_step, lemma_total_len_update,
    merged, sources_sorted, total_len, Pair,
};
use crate::iterators::{clip, StorageIterator};
use crate::key::{compare_keys, KeyOrder};
use vstd::prelude::*;

verus! {

/// An iterator together with the index of the source that it reads.
struct HeapWrapper<I: StorageIterator>(pub usize, pub Box<I>);

/// The key that the iterator of `w` is at.
spec fn head_key<I: StorageIterator>(w: HeapWrapper<I>) -> Seq<u8> {
    w.1.remaining()[0].0
}

/// The head of `a` is before the head of `b`: by key, then by index.
spec fn before<I: StorageIterator>(a: HeapWrapper<I>, b: HeapWrapper<I>) -> bool {
    head_before(head_key(a), a.0 as int, head_key(b), b.0 as int)
}

/// The iterator of `w` reads the source that `w` names, and is not the
/// one that is held outside the heap.
spec fn linked<I: StorageIterator>(w: HeapWrapper<I>, sources: Seq<Seq<Pair>>, outside: int) -> bool {
    &&& w.0 < sources.len()
    &&& w.0 != outside
    &&& w.1.inv()
    &&& w.1.remaining() == sources[w.0 as int]
}

/// Every member reads the source that it names, and no two name the same.
spec fn members_linked<I: StorageIterator>(
    ws: Seq<HeapWrapper<I>>,
    sources: Seq<Seq<Pair>>,
    outside: int,
) -> bool {
    &&& forall|p: int| 0 <= p < ws.len() ==> linked(#[trigger] ws[p], sources, outside)
    &&& forall|p: int, q: int|
        0 <= p < q < ws.len() ==> (#[trigger] ws[p]).0 != (#[trigger] ws[q]).0
}

/// Every member from `from` on is at a pair.
spec fn members_valid<I: StorageIterator>(ws: Seq<HeapWrapper<I>>, from: int) -> bool {
    forall|p: int| from <= p < ws.len() ==> (#[trigger] ws[p]).1.remaining().len() > 0
}

/// Every source that is not empty, but for the one held outside, has a
/// member that reads it.
spec fn members_complete<I: StorageIterator>(
    ws: Seq<HeapWrapper<I>>,
    sources: Seq<Seq<Pair>>,
    outside: int,
) -> bool {
    forall|i: int|
        0 <= i < sources.len() && (#[trigger] sources[i]).len() > 0 && i != outside ==> has_member(
            ws,
            i,
        )
}

/// A member reads source `i`.
spec fn has_member<I: StorageIterator>(ws: Seq<HeapWrapper<I>>, i: int) -> bool {
    exists|p: int| 0 <= p < ws.len() && (#[trigger] ws[p]).0 == i
}

/// The head `(key, index)` is before the head of every member that is at
/// a pair.
spec fn all_after<I: StorageIterator>(ws: Seq<HeapWrapper<I>>, key: Seq<u8>, index: int) -> bool {
    forall|p: int|
        0 <= p < ws.len() && (#[trigger] ws[p]).1.remaining().len() > 0 ==> head_before(
            key,
            index,
            head_key(ws[p]),
            ws[p].0 as int,
        )
}

/// The members but for the first, with the last in the place of the first.
spec fn without_top<I: StorageIterator>(ws: Seq<HeapWrapper<I>>) -> Seq<HeapWrapper<I>> {
    ws.update(0, ws.last()).drop_last()
}

proof fn lemma_without_top<I: StorageIterator>(
    ws: Seq<HeapWrapper<I>>,
    sources: Seq<Seq<Pair>>,
    outside: int,
    key: Seq<u8>,
    index: int,
)
    requires
        ws.len() > 0,
    ensures
        members_linked(ws.skip(1), sources, outside) ==> members_linked(
            without_top(ws),
            sources,
            outside,
        ),
        members_valid(ws, 1) ==> members_valid(without_top(ws), 0),
        members_complete(ws.skip(1), sources, outside) ==> members_complete(
            without_top(ws),
            sources,
            outside,
        ),
        all_after(ws.skip(1), key, index) ==> all_after(without_top(ws), key, index),
        heap_below(ws, 0) ==> heap_below(without_top(ws), 0),
{
    let xs = without_top(ws);
    let tail = ws.skip(1);
    let last = ws.len() - 1;
    assert forall|p: int| 0 <= p < xs.len() implies xs[p] == tail[if p == 0 {
        last - 1
    } else {
        p - 1
    }] by {}
    if members_linked(tail, sources, outside) {
        assert forall|p: int, q: int| 0 <= p < q < xs.len() implies (#[trigger] xs[p]).0 != (
        #[trigger] xs[q]).0 by {
            if p == 0 {
                assert(xs[p] == tail[last - 1]);
                assert(xs[q] == tail[q - 1]);
                assert(tail[q - 1].0 != tail[last - 1].0);
            } else {
                assert(xs[p] == tail[p - 1]);
                assert(xs[q] == tail[q - 1]);
            }
        }
    }
    if members_valid(ws, 1) {
        assert forall|p: int| 0 <= p < xs.len() implies (#[trigger] xs[p]).1.remaining().len()
            > 0 by {
            if p == 0 {
                assert(xs[p] == ws[last]);
            } else {
                assert(xs[p] == ws[p]);
            }
        }
    }
    if members_complete(tail, sources, outside) {
        assert forall|s: int|
            0 <= s < sources.len() && (#[trigger] sources[s]).len() > 0 && s != outside implies has_member(
            xs,
            s,
        ) by {
            assert(has_member(tail, s));
            let p = choose|p: int| 0 <= p < tail.len() && (#[trigger] tail[p]).0 == s;
            let p_now = if p == last - 1 {
                0
            } else {
                p + 1
            };
            assert(xs[p_now] == tail[p]);
        }
    }
    if heap_below(ws, 0) {
        assert forall|p: int| 1 <= p < xs.len() && parent(p) != 0 implies before(
            xs[parent(p)],
            #[trigger] xs[p],
        ) by {
            assert(xs[p] == ws[p]);
            assert(xs[parent(p)] == ws[parent(p)]);
        }
    }
}

/// The place of the parent of place `p` in the heap.
spec fn parent(p: int) -> int {
    (p - 1) / 2
}

/// The members are in heap order: each is behind its parent.
spec fn is_heap<I: StorageIterator>(ws: Seq<HeapWrapper<I>>) -> bool {
    forall|p: int| 1 <= p < ws.len() ==> before(ws[parent(p)], #[trigger] ws[p])
}

/// The members are in heap order but for the member at `hole`, which may
/// be behind its children; the parent of `hole` is before those children.
spec fn heap_below<I: StorageIterator>(ws: Seq<HeapWrapper<I>>, hole: int) -> bool {
    &&& forall|p: int|
        1 <= p < ws.len() && parent(p) != hole ==> before(ws[parent(p)], #[trigger] ws[p])
    &&& hole > 0 ==> forall|p: int|
        1 <= p < ws.len() && parent(p) == hole ==> before(ws[parent(hole)], #[trigger] ws[p])
}

/// The members are in heap order but for the member at `hole`, which may
/// be before its parent; the parent of `hole` is before its children.
spec fn heap_above<I: StorageIterator>(ws: Seq<HeapWrapper<I>>, hole: int) -> bool {
    &&& forall|p: int| 1 <= p < ws.len() && p != hole ==> before(ws[parent(p)], #[trigger] ws[p])
    &&& hole > 0 ==> forall|p: int|
        1 <= p < ws.len() && parent(p) == hole ==> before(ws[parent(hole)], #[trigger] ws[p])
}

/// The members with those at `i` and `j` exchanged.
spec fn exchanged<I: StorageIterator>(ws: Seq<HeapWrapper<I>>, i: int, j: int) -> Seq<
    HeapWrapper<I>,
> {
    ws.update(i, ws[j]).update(j, ws[i])
}

proof fn lemma_exchanged<I: StorageIterator>(
    ws: Seq<HeapWrapper<I>>,
    i: int,
    j: int,
    sources: Seq<Seq<Pair>>,
    outside: int,
    key: Seq<u8>,
    index: int,
)
    requires
        0 <= i < j < ws.len(),
    ensures
        members_linked(ws, sources, outside) ==> members_linked(
            exchanged(ws, i, j),
            sources,
            outside,
        ),
        members_valid(ws, 0) ==> members_valid(exchanged(ws, i, j), 0),
        members_complete(ws, sources, outside) ==> members_complete(
            exchanged(ws, i, j),
            sources,
            outside,
        ),
        all_after(ws, key, index) ==> all_after(exchanged(ws, i, j), key, index),
{
    let xs = exchanged(ws, i, j);
    assert forall|p: int| 0 <= p < xs.len() implies xs[p] == ws[if p == i {
        j
    } else if p == j {
        i
    } else {
        p
    }] by {}
    if members_linked(ws, sources, outside) {
        assert forall|p: int, q: int| 0 <= p < q < xs.len() implies (#[trigger] xs[p]).0 != (
        #[trigger] xs[q]).0 by {
            let p_was = if p == i {
                j
            } else if p == j {
                i
            } else {
                p
            };
            let q_was = if q == i {
                j
            } else if q == j {
                i
            } else {
                q
            };
            assert(xs[p] == ws[p_was]);
            assert(xs[q] == ws[q_was]);
            if p_was < q_was {
                assert(ws[p_was].0 != ws[q_was].0);
            } else {
                assert(ws[q_was].0 != ws[p_was].0);
            }
        }
    }
    if members_complete(ws, sources, outside) {
        assert forall|s: int|
            0 <= s < sources.len() && (#[trigger] sources[s]).len() > 0 && s != outside implies has_member(
            xs,
            s,
        ) by {
            assert(has_member(ws, s));
            let p = choose|p: int| 0 <= p < ws.len() && (#[trigger] ws[p]).0 == s;
            let p_now = if p == i {
                j
            } else if p == j {
                i
            } else {
                p
            };
            assert(xs[p_now] == ws[p]);
        }
    }
}

/// Whether the head of `a` is before the head of `b`.
fn is_before<I: StorageIterator>(a: &HeapWrapper<I>, b: &HeapWrapper<I>) -> (yes: bool)
    requires
        a.1.inv(),
        a.1.remaining().len() > 0,
        b.1.inv(),
        b.1.remaining().len() > 0,
    ensures
        yes == before(*a, *b),
{
    proof {
        crate::key::lemma_key_order(head_key(*a), head_key(*b));
    }
    match compare_keys(a.1.key(), b.1.key()) {
        KeyOrder::Less => true,
        KeyOrder::Greater => false,
        KeyOrder::Equal => a.0 <= b.0,
    }
}

/// Exchanges the members at `i` and `j`.
fn exchange<I: StorageIterator>(heap: &mut Vec<HeapWrapper<I>>, i: usize, j: usize)
    requires
        i < j < old(heap)@.len(),
    ensures
        final(heap)@ == exchanged(old(heap)@, i as int, j as int),
{
    let (front, back) = heap.as_mut_slice().split_at_mut(j);
    core::mem::swap(&mut front[i], &mut back[0]);
}

proof fn lemma_before_total<I: StorageIterator>(a: HeapWrapper<I>, b: HeapWrapper<I>)
    ensures
        before(a, b) || before(b, a),
{
    lemma_head_before_total(head_key(a), a.0 as int, head_key(b), b.0 as int);
}

proof fn lemma_before_transitive<I: StorageIterator>(
    a: HeapWrapper<I>,
    b: HeapWrapper<I>,
    c: HeapWrapper<I>,
)
    requires
        before(a, b),
        before(b, c),
    ensures
        before(a, c),
{
    lemma_head_before_transitive(
        head_key(a),
        a.0 as int,
        head_key(b),
        b.0 as int,
        head_key(c),
        c.0 as int,
    );
}

/// In heap order the first member is before every member.
proof fn lemma_top_is_first<I: StorageIterator>(ws: Seq<HeapWrapper<I>>, p: int)
    requires
        is_heap(ws),
        0 <= p < ws.len(),
    ensures
        before(ws[0], ws[p]),
    decreases p,
{
    if p == 0 {
        lemma_before_total(ws[0], ws[0]);
    } else {
        lemma_top_is_first(ws, parent(p));
        assert(before(ws[parent(p)], ws[p]));
        lemma_before_transitive(ws[0], ws[parent(p)], ws[p]);
    }
}

/// Moves the first member down until the members are in heap order.
fn sift_down<I: StorageIterator>(
    heap: &mut Vec<HeapWrapper<I>>,
    Ghost(sources): Ghost<Seq<Seq<Pair>>>,
    Ghost(outside): Ghost<int>,
    Ghost(key): Ghost<Seq<u8>>,
    Ghost(index): Ghost<int>,
)
    requires
        members_linked(old(heap)@, sources, outside),
        members_valid(old(heap)@, 0),
        heap_below(old(heap)@, 0),
    ensures
        final(heap)@.len() == old(heap)@.len(),
        members_linked(final(heap)@, sources, outside),
        members_valid(final(heap)@, 0),
        is_heap(final(heap)@),
        members_complete(old(heap)@, sources, outside) ==> members_complete(
            final(heap)@,
            sources,
            outside,
        ),
        all_after(old(heap)@, key, index) ==> all_after(final(heap)@, key, index),
{
    let count = heap.len();
    let mut pos: usize = 0;
    loop
        invariant
            count == heap@.len(),
            count == old(heap)@.len(),
            pos < count || count == 0,
            members_linked(heap@, sources, outside),
            members_valid(heap@, 0),
            heap_below(heap@, pos as int),
            members_complete(old(heap)@, sources, outside) ==> members_complete(
                heap@,
                sources,
                outside,
            ),
            all_after(old(heap)@, key, index) ==> all_after(heap@, key, index),
        ensures
            is_heap(heap@),
        decreases count - pos,
    {
        if pos >= count / 2 {
            assert forall|p: int| 1 <= p < heap@.len() implies before(
                heap@[parent(p)],
                #[trigger] heap@[p],
            ) by {
                assert(parent(p) != pos);
            }
            break ;
        }
        let left = 2 * pos + 1;
        let right = left + 1;
        let mut child = left;
        assert(linked(heap@[left as int], sources, outside));
        assert(linked(heap@[pos as int], sources, outside));
        if right < count {
            assert(linked(heap@[right as int], sources, outside));
            if !is_before(&heap[left], &heap[right]) {
                child = right;
            }
        }
        proof {
            lemma_before_total(heap@[left as int], heap@[left as int]);
            if right < count {
                lemma_before_total(heap@[left as int], heap@[right as int]);
                lemma_before_total(heap@[right as int], heap@[right as int]);
            }
        }
        assert(linked(heap@[child as int], sources, outside));
        if is_before(&heap[pos], &heap[child]) {
            proof {
                let ws = heap@;
                assert forall|p: int| 1 <= p < ws.len() implies before(
                    ws[parent(p)],
                    #[trigger] ws[p],
                ) by {
                    if parent(p) == pos {
                        assert(p == left || p == right);
                        lemma_before_transitive(ws[pos as int], ws[child as int], ws[p]);
                    }
                }
            }
            break ;
        }
        let ghost ws = heap@;
        exchange(heap, pos, child);
        proof {
            lemma_exchanged(ws, pos as int, child as int, sources, outside, key, index);
            lemma_before_total(ws[pos as int], ws[child as int]);
            let xs = heap@;
            assert forall|p: int| 1 <= p < xs.len() && parent(p) != child implies before(
                xs[parent(p)],
                #[trigger] xs[p],
            ) by {
                if p == child {
                } else if parent(p) == pos {
                    assert(p == left || p == right);
                    assert(xs[p] == ws[p]);
                } else if p == pos {
                    assert(before(ws[parent(pos as int)], ws[child as int]));
                } else {
                    assert(xs[p] == ws[p]);
                    assert(xs[parent(p)] == ws[parent(p)]);
                }
            }
            assert forall|p: int| 1 <= p < xs.len() && parent(p) == child implies before(
                xs[parent(child as int)],
                #[trigger] xs[p],
            ) by {
                assert(xs[p] == ws[p]);
                assert(before(ws[parent(p)], ws[p]));
            }
        }
        pos = child;
    }
}

/// Moves the last member up until the members are in heap order.
fn sift_up<I: StorageIterator>(
    heap: &mut Vec<HeapWrapper<I>>,
    Ghost(sources): Ghost<Seq<Seq<Pair>>>,
    Ghost(outside): Ghost<int>,
)
    requires
        old(heap)@.len() > 0,
        members_linked(old(heap)@, sources, outside),
        members_valid(old(heap)@, 0),
        heap_above(old(heap)@, old(heap)@.len() - 1),
    ensures
        final(heap)@.len() == old(heap)@.len(),
        members_linked(final(heap)@, sources, outside),
        members_valid(final(heap)@, 0),
        is_heap(final(heap)@),
        forall|i: int| has_member(old(heap)@, i) <==> has_member(final(heap)@, i),
{
    let count = heap.len();
    let mut pos: usize = count - 1;
    loop
        invariant
            count == heap@.len(),
            count == old(heap)@.len(),
            pos < count,
            members_linked(heap@, sources, outside),
            members_valid(heap@, 0),
            heap_above(heap@, pos as int),
            forall|i: int| has_member(old(heap)@, i) <==> has_member(heap@, i),
        ensures
            is_heap(heap@),
        decreases pos,
    {
        if pos == 0 {
            break ;
        }
        let up = (pos - 1) / 2;
        assert(linked(heap@[up as int], sources, outside));
        assert(linked(heap@[pos as int], sources, outside));
        if is_before(&heap[up], &heap[pos]) {
            break ;
        }
        let ghost ws = heap@;
        exchange(heap, up, pos);
        proof {
            lemma_exchanged(ws, up as int, pos as int, sources, outside, Seq::empty(), 0);
            lemma_before_total(ws[up as int], ws[pos as int]);
            let xs = heap@;
            assert forall|i: int| has_member(ws, i) <==> has_member(xs, i) by {
                if has_member(ws, i) {
                    let p = choose|p: int| 0 <= p < ws.len() && (#[trigger] ws[p]).0 == i;
                    let p_now = if p == up {
                        pos as int
                    } else if p == pos {
                        up as int
                    } else {
                        p
                    };
                    assert(xs[p_now] == ws[p]);
                }
                if has_member(xs, i) {
                    let p = choose|p: int| 0 <= p < xs.len() && (#[trigger] xs[p]).0 == i;
                    let p_now = if p == up {
                        pos as int
                    } else if p == pos {
                        up as int
                    } else {
                        p
                    };
                    assert(ws[p_now] == xs[p]);
                }
            }
            assert forall|p: int| 1 <= p < xs.len() && p != up implies before(
                xs[parent(p)],
                #[trigger] xs[p],
            ) by {
                if p == pos {
                } else if parent(p) == up {
                    assert(xs[p] == ws[p]);
                    assert(before(ws[up as int], ws[p]));
                    lemma_before_transitive(ws[pos as int], ws[up as int], ws[p]);
                } else if parent(p) == pos {
                    assert(xs[p] == ws[p]);
                } else {
                    assert(xs[p] == ws[p]);
                    assert(xs[parent(p)] == ws[parent(p)]);
                }
            }
            assert forall|p: int| 1 <= p < xs.len() && parent(p) == up && up > 0 implies before(
                xs[parent(up as int)],
                #[trigger] xs[p],
            ) by {
                assert(before(ws[parent(up as int)], ws[up as int]));
                if p == pos {
                } else {
                    assert(xs[p] == ws[p]);
                    assert(before(ws[up as int], ws[p]));
                    lemma_before_transitive(ws[parent(up as int)], ws[up as int], ws[p]);
                }
            }
        }
        pos = up;
    }
}

/// Takes the first member out and puts the others in heap order.
fn remove_top<I: StorageIterator>(
    heap: &mut Vec<HeapWrapper<I>>,
    Ghost(sources): Ghost<Seq<Seq<Pair>>>,
    Ghost(outside): Ghost<int>,
    Ghost(key): Ghost<Seq<u8>>,
    Ghost(index): Ghost<int>,
) -> (top: HeapWrapper<I>)
    requires
        old(heap)@.len() > 0,
        members_linked(old(heap)@.skip(1), sources, outside),
        members_valid(old(heap)@, 1),
        heap_below(old(heap)@, 0),
    ensures
        top == old(heap)@[0],
        final(heap)@.len() == old(heap)@.len() - 1,
        members_linked(final(heap)@, sources, outside),
        members_valid(final(heap)@, 0),
        is_heap(final(heap)@),
        members_complete(old(heap)@.skip(1), sources, outside) ==> members_complete(
            final(heap)@,
            sources,
            outside,
        ),
        all_after(old(heap)@.skip(1), key, index) ==> all_after(final(heap)@, key, index),
{
    let top = heap.swap_remove(0);
    proof {
        lemma_without_top(old(heap)@, sources, outside, key, index);
    }
    sift_down(heap, Ghost(sources), Ghost(outside), Ghost(key), Ghost(index));
    top
}

/// A source that has lost its head is still sorted.
proof fn lemma_sorted_after_drop(sources: Seq<Seq<Pair>>, index: int)
    requires
        sources_sorted(sources),
        0 <= index < sources.len(),
        sources[index].len() > 0,
    ensures
        sources_sorted(sources.update(index, sources[index].drop_first())),
        sources[index].len() > 1 ==> crate::key::key_lt(sources[index][0].0, sources[index][1].0),
{
    let source = sources[index];
    let rest = source.drop_first();
    let after = sources.update(index, rest);
    let keys = crate::block::keys_of(source);
    let rest_keys = crate::block::keys_of(rest);
    assert(crate::key::keys_increasing(keys));
    assert forall|a: int, b: int| 0 <= a < b < rest_keys.len() implies crate::key::key_lt(
        #[trigger] rest_keys[a],
        #[trigger] rest_keys[b],
    ) by {
        assert(rest_keys[a] == keys[a + 1]);
        assert(rest_keys[b] == keys[b + 1]);
    }
    assert forall|j: int| 0 <= j < after.len() implies crate::key::keys_increasing(
        crate::block::keys_of(#[trigger] after[j]),
    ) by {
        if j != index {
            assert(after[j] == sources[j]);
        }
    }
    if source.len() > 1 {
        assert(keys[0] == source[0].0);
        assert(keys[1] == source[1].0);
    }
}

/// How far the sources have come from `before` while the key `key` is
/// being skipped: each is as it was, or has lost a head with that key.
spec fn skipping(before: Seq<Seq<Pair>>, now: Seq<Seq<Pair>>, key: Seq<u8>) -> bool {
    &&& now.len() == before.len()
    &&& forall|j: int|
        0 <= j < before.len() ==> (#[trigger] now[j]) == before[j] || (before[j].len() > 0
            && before[j][0].0 == key && now[j] == before[j].drop_first())
}

/// The members `now` are the members `was` after a step of the first of
/// them: the others are as they were, and the first still names its source.
spec fn top_stepped<I: StorageIterator>(was: Seq<HeapWrapper<I>>, now: Seq<HeapWrapper<I>>) -> bool {
    &&& was.len() > 0
    &&& now.len() == was.len()
    &&& now[0].0 == was[0].0
    &&& forall|p: int| 1 <= p < was.len() ==> #[trigger] now[p] == was[p]
}

/// What follows a step of the first member past the key `key`, for each
/// way the step can have ended. Where it failed, the member is taken out
/// and its error is handed on. Where it went well, the source of the member
/// has lost its head; the member is taken out if it has no pair left, and
/// else moved to its place in the heap.
fn after_top_step<I: StorageIterator>(
    heap: &mut Vec<HeapWrapper<I>>,
    moved: Result<(), Error>,
    Ghost(was): Ghost<Seq<HeapWrapper<I>>>,
    Ghost(sources): Ghost<Seq<Seq<Pair>>>,
    Ghost(outside): Ghost<int>,
    Ghost(key): Ghost<Seq<u8>>,
) -> (stepped: Result<Ghost<Seq<Seq<Pair>>>, Error>)
    requires
        sources_sorted(sources),
        top_stepped(was, old(heap)@),
        members_linked(was, sources, outside),
        members_valid(was, 0),
        is_heap(was),
        members_complete(was, sources, outside),
        all_after(was, key, outside),
        head_key(was[0]) == key,
        moved is Ok ==> old(heap)@[0].1.inv() && old(heap)@[0].1.remaining()
            == was[0].1.remaining().drop_first(),
    ensures
        final(heap)@.len() == if moved is Ok && old(heap)@[0].1.remaining().len() > 0 {
            was.len() as int
        } else {
            was.len() - 1
        },
        members_valid(final(heap)@, 0),
        is_heap(final(heap)@),
        match moved {
            Err(e) => {
                &&& stepped == Err::<Ghost<Seq<Seq<Pair>>>, Error>(e)
                &&& members_linked(final(heap)@, sources, outside)
                &&& all_after(final(heap)@, key, outside)
            },
            Ok(_) => {
                let after = sources.update(
                    was[0].0 as int,
                    sources[was[0].0 as int].drop_first(),
                );
                &&& stepped is Ok
                &&& stepped->Ok_0@ == after
                &&& sources_sorted(after)
                &&& total_len(after) < total_len(sources)
                &&& members_linked(final(heap)@, after, outside)
                &&& members_complete(final(heap)@, after, outside)
                &&& all_after(final(heap)@, key, outside)
            },
        },
{
    let ghost xs = heap@;
    let ghost top = was[0].0 as int;
    proof {
        assert(linked(was[0], sources, outside));
        assert(xs.skip(1) =~= was.skip(1));
        assert forall|p: int| 0 <= p < was.skip(1).len() implies linked(
            #[trigger] was.skip(1)[p],
            sources,
            outside,
        ) by {
            assert(was.skip(1)[p] == was[p + 1]);
        }
        assert forall|p: int, q: int| 0 <= p < q < was.skip(1).len() implies (
        #[trigger] was.skip(1)[p]).0 != (#[trigger] was.skip(1)[q]).0 by {
            assert(was.skip(1)[p] == was[p + 1]);
            assert(was.skip(1)[q] == was[q + 1]);
        }
        assert forall|p: int|
            0 <= p < was.skip(1).len() && (#[trigger] was.skip(1)[p]).1.remaining().len()
                > 0 implies head_before(
            key,
            outside,
            head_key(was.skip(1)[p]),
            was.skip(1)[p].0 as int,
        ) by {
            assert(was.skip(1)[p] == was[p + 1]);
        }
        assert forall|p: int| 1 <= p < xs.len() && parent(p) != 0 implies before(
            xs[parent(p)],
            #[trigger] xs[p],
        ) by {
            assert(xs[p] == was[p]);
            assert(xs[parent(p)] == was[parent(p)]);
            assert(before(was[parent(p)], was[p]));
        }
        assert forall|p: int| 1 <= p < xs.len() implies (#[trigger] xs[p]).1.remaining().len()
            > 0 by {
            assert(xs[p] == was[p]);
        }
    }
    match moved {
        Err(e) => {
            let _ = remove_top(heap, Ghost(sources), Ghost(outside), Ghost(key), Ghost(outside));
            return Err(e);
        },
        Ok(_) => {},
    }
    let ghost after = sources.update(top, sources[top].drop_first());
    proof {
        lemma_sorted_after_drop(sources, top);
        lemma_total_len_update(sources, top, sources[top].drop_first());
        // The members read the sources as they are now.
        assert forall|p: int| 0 <= p < xs.len() implies linked(#[trigger] xs[p], after, outside) by {
            if p > 0 {
                assert(xs[p] == was[p]);
                assert(linked(was[p], sources, outside));
                assert(was[0].0 != was[p].0);
            }
        }
        assert forall|p: int, q: int| 0 <= p < q < xs.len() implies (#[trigger] xs[p]).0 != (
        #[trigger] xs[q]).0 by {
            assert(xs[q] == was[q]);
            assert(was[p].0 != was[q].0);
        }
        assert forall|p: int|
            0 <= p < xs.len() && (#[trigger] xs[p]).1.remaining().len() > 0 implies head_before(
            key,
            outside,
            head_key(xs[p]),
            xs[p].0 as int,
        ) by {
            if p == 0 {
                assert(sources[top][0].0 == key);
                assert(xs[0].1.remaining() == sources[top].drop_first());
                assert(xs[0].1.remaining()[0] == sources[top][1]);
            } else {
                assert(xs[p] == was[p]);
            }
        }
        assert forall|j: int|
            0 <= j < after.len() && (#[trigger] after[j]).len() > 0 && j
                != outside implies has_member(xs, j) by {
            if j == top {
                assert(xs[0].0 == j);
            } else {
                assert(after[j] == sources[j]);
                assert(has_member(was, j));
                let p = choose|p: int| 0 <= p < was.len() && (#[trigger] was[p]).0 == j;
                assert(xs[p].0 == j);
            }
        }
    }
    if !heap[0].1.is_valid() {
        proof {
            let tail = xs.skip(1);
            assert forall|p: int| 0 <= p < tail.len() implies linked(
                #[trigger] tail[p],
                after,
                outside,
            ) by {
                assert(tail[p] == xs[p + 1]);
            }
            assert forall|p: int, q: int| 0 <= p < q < tail.len() implies (#[trigger] tail[p]).0
                != (#[trigger] tail[q]).0 by {
                assert(tail[p] == xs[p + 1]);
                assert(tail[q] == xs[q + 1]);
            }
            assert forall|j: int|
                0 <= j < after.len() && (#[trigger] after[j]).len() > 0 && j
                    != outside implies has_member(tail, j) by {
                assert(has_member(xs, j));
                let p = choose|p: int| 0 <= p < xs.len() && (#[trigger] xs[p]).0 == j;
                assert(p > 0);
                assert(tail[p - 1] == xs[p]);
            }
            assert forall|p: int|
                0 <= p < tail.len() && (#[trigger] tail[p]).1.remaining().len()
                    > 0 implies head_before(key, outside, head_key(tail[p]), tail[p].0 as int) by {
                assert(tail[p] == xs[p + 1]);
            }
        }
        let _ = remove_top(heap, Ghost(after), Ghost(outside), Ghost(key), Ghost(outside));
    } else {
        sift_down(heap, Ghost(after), Ghost(outside), Ghost(key), Ghost(outside));
    }
    Ok(Ghost(after))
}

/// Moves every member that is at the key of `current` past that key, and
/// takes those out that have no pair left.
fn skip_key<I: StorageIterator>(
    heap: &mut Vec<HeapWrapper<I>>,
    current: &HeapWrapper<I>,
    Ghost(sources): Ghost<Seq<Seq<Pair>>>,
) -> (skipped: Result<Ghost<Seq<Seq<Pair>>>, Error>)
    requires
        sources_sorted(sources),
        linked(*current, sources, -1),
        current.1.remaining().len() > 0,
        members_linked(old(heap)@, sources, current.0 as int),
        members_valid(old(heap)@, 0),
        is_heap(old(heap)@),
        members_complete(old(heap)@, sources, current.0 as int),
        all_after(old(heap)@, head_key(*current), current.0 as int),
    ensures
        skipped is Ok ==> {
            let now = skipped->Ok_0@;
            &&& sources_sorted(now)
            &&& skipping(sources, now, head_key(*current))
            &&& now[current.0 as int] == sources[current.0 as int]
            &&& members_linked(final(heap)@, now, current.0 as int)
            &&& members_valid(final(heap)@, 0)
            &&& is_heap(final(heap)@)
            &&& members_complete(final(heap)@, now, current.0 as int)
            &&& all_after(final(heap)@, head_key(*current), current.0 as int)
            &&& forall|p: int|
                0 <= p < final(heap)@.len() ==> head_key(#[trigger] final(heap)@[p]) != head_key(
                    *current,
                )
        },
        // Where no member is at the key, none is moved: no step can fail,
        // and the members and the sources are as they were.
        old(heap)@.len() == 0 || head_key(old(heap)@[0]) != head_key(*current) ==> {
            &&& skipped is Ok
            &&& skipped->Ok_0@ == sources
            &&& final(heap)@ == old(heap)@
        },
{
    let ghost key = head_key(*current);
    let ghost outside = current.0 as int;
    let ghost mut now = sources;
    let ghost mut stepped_any = false;
    loop
        invariant
            !stepped_any ==> heap@ == old(heap)@ && now == sources,
            stepped_any ==> old(heap)@.len() > 0 && head_key(old(heap)@[0]) == key,
            sources_sorted(sources),
            sources_sorted(now),
            skipping(sources, now, key),
            key == head_key(*current),
            outside == current.0 as int,
            linked(*current, sources, -1),
            current.1.remaining().len() > 0,
            now[outside] == sources[outside],
            members_linked(heap@, now, outside),
            members_valid(heap@, 0),
            is_heap(heap@),
            members_complete(heap@, now, outside),
            all_after(heap@, key, outside),
        ensures
            forall|p: int| 0 <= p < heap@.len() ==> head_key(#[trigger] heap@[p]) != key,
            !stepped_any ==> heap@ == old(heap)@ && now == sources,
            stepped_any ==> old(heap)@.len() > 0 && head_key(old(heap)@[0]) == key,
        decreases total_len(now),
    {
        if heap.len() == 0 {
            break ;
        }
        assert(linked(heap@[0], now, outside));
        let same = match compare_keys(heap[0].1.key(), current.1.key()) {
            KeyOrder::Equal => true,
            _ => false,
        };
        if !same {
            proof {
                let ws = heap@;
                assert forall|p: int| 0 <= p < ws.len() implies head_key(#[trigger] ws[p])
                    != key by {
                    lemma_top_is_first(ws, p);
                    assert(head_before(key, outside, head_key(ws[0]), ws[0].0 as int));
                    assert(crate::key::key_lt(key, head_key(ws[0])));
                    if head_key(ws[0]) != head_key(ws[p]) {
                        crate::key::lemma_key_lt_transitive(key, head_key(ws[0]), head_key(ws[p]));
                    }
                    crate::key::lemma_key_lt_irreflexive(key);
                }
            }
            break ;
        }
        let ghost ws = heap@;
        let ghost top = ws[0].0 as int;
        proof {
            stepped_any = true;
        }
        let moved = heap[0].1.next();
        let stepped = after_top_step(
            heap,
            moved,
            Ghost(ws),
            Ghost(now),
            Ghost(outside),
            Ghost(key),
        );
        match stepped {
            Err(e) => {
                return Err(e);
            },
            Ok(after) => {
                proof {
                    assert(skipping(sources, after@, key)) by {
                        assert forall|j: int| 0 <= j < sources.len() implies (#[trigger] after@[j])
                            == sources[j] || (sources[j].len() > 0 && sources[j][0].0 == key
                            && after@[j] == sources[j].drop_first()) by {
                            if j == top {
                                assert(linked(ws[0], now, outside));
                                assert(now[j] == sources[j] || (sources[j].len() > 0
                                    && sources[j][0].0 == key && now[j]
                                    == sources[j].drop_first()));
                                if now[j] != sources[j] {
                                    // A source loses one head with the key at most: the
                                    // next is behind it.
                                    crate::key::lemma_key_lt_irreflexive(key);
                                    lemma_sorted_after_drop(sources, top);
                                    assert(ws[0].1.remaining() == now[top]);
                                    assert(now[top].len() > 0);
                                    assert(now[top][0] == sources[top][1]);
                                    assert(head_key(ws[0]) == key);
                                    assert(false);
                                }
                            } else {
                                assert(after@[j] == now[j]);
                            }
                        }
                    }
                    now = after@;
                }
            },
        }
    }
    Ok(Ghost(now))
}

/// The iterator `cur` is the current one of a merge with the members `ws`:
/// its head is before the head of every member, or neither it nor any
/// source has a pair left.
spec fn settled<I: StorageIterator>(
    ws: Seq<HeapWrapper<I>>,
    cur: HeapWrapper<I>,
    sources: Seq<Seq<Pair>>,
) -> bool {
    &&& cur.1.inv()
    &&& if cur.1.remaining().len() > 0 {
        &&& linked(cur, sources, -1)
        &&& members_linked(ws, sources, cur.0 as int)
        &&& members_complete(ws, sources, cur.0 as int)
        &&& all_after(ws, head_key(cur), cur.0 as int)
    } else {
        ws.len() == 0 && members_complete(ws, sources, -1)
    }
}

/// Once every member was moved past the key of the front, and the front
/// itself, the sources are what is left when that key is dropped.
proof fn lemma_skipped<I: StorageIterator>(
    ws: Seq<HeapWrapper<I>>,
    before: Seq<Seq<Pair>>,
    skipped: Seq<Seq<Pair>>,
    key: Seq<u8>,
    index: int,
)
    requires
        0 <= index < before.len(),
        before[index].len() > 0,
        before[index][0].0 == key,
        sources_sorted(skipped),
        skipping(before, skipped, key),
        skipped[index] == before[index],
        members_linked(ws, skipped, index),
        members_valid(ws, 0),
        members_complete(ws, skipped, index),
        forall|p: int| 0 <= p < ws.len() ==> head_key(#[trigger] ws[p]) != key,
    ensures
        skipped.update(index, before[index].drop_first()) == drop_key(before, key),
        sources_sorted(skipped.update(index, before[index].drop_first())),
        members_linked(ws, skipped.update(index, before[index].drop_first()), index),
        members_complete(ws, skipped.update(index, before[index].drop_first()), index),
{
    let now = skipped.update(index, before[index].drop_first());
    lemma_sorted_after_drop(skipped, index);
    let dropped = drop_key(before, key);
    assert forall|j: int| 0 <= j < now.len() implies now[j] == dropped[j] by {
        if j != index {
            assert(now[j] == skipped[j]);
            if before[j].len() > 0 && before[j][0].0 == key {
                if skipped[j] == before[j] {
                    assert(has_member(ws, j));
                    let p = choose|p: int| 0 <= p < ws.len() && (#[trigger] ws[p]).0 == j;
                    assert(linked(ws[p], skipped, index));
                    assert(head_key(ws[p]) != key);
                }
            }
        }
    }
    assert(now =~= dropped);
    assert forall|p: int| 0 <= p < ws.len() implies linked(#[trigger] ws[p], now, index) by {
        assert(linked(ws[p], skipped, index));
    }
    assert forall|j: int|
        0 <= j < now.len() && (#[trigger] now[j]).len() > 0 && j != index implies has_member(
        ws,
        j,
    ) by {
        assert(now[j] == skipped[j]);
    }
}

/// The members but for the first are a heap's members with the first
/// held outside.
proof fn lemma_top_outside<I: StorageIterator>(
    ws: Seq<HeapWrapper<I>>,
    sources: Seq<Seq<Pair>>,
    outside: int,
)
    requires
        ws.len() > 0,
        members_linked(ws, sources, outside),
        members_valid(ws, 0),
        is_heap(ws),
        members_complete(ws, sources, outside),
        outside < 0 || outside >= sources.len() || sources[outside].len() == 0,
    ensures
        members_linked(ws.skip(1), sources, ws[0].0 as int),
        members_complete(ws.skip(1), sources, ws[0].0 as int),
        all_after(ws.skip(1), head_key(ws[0]), ws[0].0 as int),
        linked(ws[0], sources, -1),
{
    let tail = ws.skip(1);
    let top = ws[0].0 as int;
    assert(linked(ws[0], sources, outside));
    assert forall|p: int| 0 <= p < tail.len() implies linked(#[trigger] tail[p], sources, top) by {
        assert(tail[p] == ws[p + 1]);
        assert(linked(ws[p + 1], sources, outside));
        assert(ws[0].0 != ws[p + 1].0);
    }
    assert forall|p: int, q: int| 0 <= p < q < tail.len() implies (#[trigger] tail[p]).0 != (
    #[trigger] tail[q]).0 by {
        assert(tail[p] == ws[p + 1]);
        assert(tail[q] == ws[q + 1]);
    }
    assert forall|j: int|
        0 <= j < sources.len() && (#[trigger] sources[j]).len() > 0 && j != top implies has_member(
        tail,
        j,
    ) by {
        assert(has_member(ws, j));
        let p = choose|p: int| 0 <= p < ws.len() && (#[trigger] ws[p]).0 == j;
        assert(tail[p - 1] == ws[p]);
    }
    assert forall|p: int|
        0 <= p < tail.len() && (#[trigger] tail[p]).1.remaining().len() > 0 implies head_before(
        head_key(ws[0]),
        top,
        head_key(tail[p]),
        tail[p].0 as int,
    ) by {
        assert(tail[p] == ws[p + 1]);
        lemma_top_is_first(ws, p + 1);
    }
}

/// The members with `cur` in the place of the first are a heap's members
/// but for the order at the first place, with the first held outside.
proof fn lemma_top_replaced<I: StorageIterator>(
    ws: Seq<HeapWrapper<I>>,
    cur: HeapWrapper<I>,
    sources: Seq<Seq<Pair>>,
)
    requires
        ws.len() > 0,
        linked(cur, sources, -1),
        cur.1.remaining().len() > 0,
        members_linked(ws, sources, cur.0 as int),
        members_valid(ws, 0),
        is_heap(ws),
        members_complete(ws, sources, cur.0 as int),
        !before(cur, ws[0]),
    ensures
        members_linked(ws.update(0, cur), sources, ws[0].0 as int),
        members_valid(ws.update(0, cur), 0),
        heap_below(ws.update(0, cur), 0),
        members_complete(ws.update(0, cur), sources, ws[0].0 as int),
        all_after(ws.update(0, cur), head_key(ws[0]), ws[0].0 as int),
        linked(ws[0], sources, -1),
{
    let xs = ws.update(0, cur);
    let top = ws[0].0 as int;
    let index = cur.0 as int;
    lemma_before_total(cur, ws[0]);
    assert(linked(ws[0], sources, index));
    assert forall|p: int| 0 <= p < xs.len() implies linked(#[trigger] xs[p], sources, top) by {
        if p > 0 {
            assert(xs[p] == ws[p]);
            assert(linked(ws[p], sources, index));
            assert(ws[0].0 != ws[p].0);
        }
    }
    assert forall|p: int, q: int| 0 <= p < q < xs.len() implies (#[trigger] xs[p]).0 != (
    #[trigger] xs[q]).0 by {
        assert(xs[q] == ws[q]);
        assert(linked(ws[q], sources, index));
        if p > 0 {
            assert(xs[p] == ws[p]);
        }
    }
    assert forall|p: int| 0 <= p < xs.len() implies (#[trigger] xs[p]).1.remaining().len() > 0 by {
        if p > 0 {
            assert(xs[p] == ws[p]);
        }
    }
    assert forall|p: int| 1 <= p < xs.len() && parent(p) != 0 implies before(
        xs[parent(p)],
        #[trigger] xs[p],
    ) by {
        assert(xs[p] == ws[p]);
        assert(xs[parent(p)] == ws[parent(p)]);
    }
    assert forall|j: int|
        0 <= j < sources.len() && (#[trigger] sources[j]).len() > 0 && j != top implies has_member(
        xs,
        j,
    ) by {
        if j == index {
            assert(xs[0].0 == j);
        } else {
            assert(has_member(ws, j));
            let p = choose|p: int| 0 <= p < ws.len() && (#[trigger] ws[p]).0 == j;
            assert(xs[p] == ws[p]);
        }
    }
    assert forall|p: int|
        0 <= p < xs.len() && (#[trigger] xs[p]).1.remaining().len() > 0 implies head_before(
        head_key(ws[0]),
        top,
        head_key(xs[p]),
        xs[p].0 as int,
    ) by {
        if p > 0 {
            assert(xs[p] == ws[p]);
            lemma_top_is_first(ws, p);
        }
    }
}

/// Picks the current iterator once `current` has moved on: the first
/// member where `current` has no pair left or the head of that member is
/// before its head, else `current` itself.
fn settle<I: StorageIterator>(
    heap: &mut Vec<HeapWrapper<I>>,
    current: HeapWrapper<I>,
    Ghost(sources): Ghost<Seq<Seq<Pair>>>,
) -> (next: HeapWrapper<I>)
    requires
        current.1.inv(),
        current.0 < sources.len(),
        current.1.remaining() == sources[current.0 as int],
        members_linked(old(heap)@, sources, current.0 as int),
        members_valid(old(heap)@, 0),
        is_heap(old(heap)@),
        members_complete(old(heap)@, sources, current.0 as int),
    ensures
        members_valid(final(heap)@, 0),
        is_heap(final(heap)@),
        settled(final(heap)@, next, sources),
{
    let mut current = current;
    let ghost ws = heap@;
    let ghost index = current.0 as int;
    if !current.1.is_valid() {
        if heap.len() > 0 {
            proof {
                lemma_top_outside(ws, sources, index);
            }
            let ghost top_key = head_key(ws[0]);
            let ghost top = ws[0].0 as int;
            let next = remove_top(heap, Ghost(sources), Ghost(top), Ghost(top_key), Ghost(top));
            return next;
        }
        assert forall|j: int|
            0 <= j < sources.len() && (#[trigger] sources[j]).len() > 0 && j != -1 implies has_member(
            ws,
            j,
        ) by {
            assert(j != index);
        }
        return current;
    }
    if heap.len() > 0 {
        assert(linked(ws[0], sources, index));
        if !is_before(&current, &heap[0]) {
            let ghost top = ws[0].0 as int;
            let ghost top_key = head_key(ws[0]);
            let ghost was_current = current;
            proof {
                lemma_top_replaced(ws, current, sources);
            }
            core::mem::swap(&mut heap[0], &mut current);
            assert(heap@ =~= ws.update(0, was_current));
            sift_down(heap, Ghost(sources), Ghost(top), Ghost(top_key), Ghost(top));
            return current;
        }
        proof {
            assert forall|p: int|
                0 <= p < ws.len() && (#[trigger] ws[p]).1.remaining().len() > 0 implies head_before(
                head_key(current),
                index,
                head_key(ws[p]),
                ws[p].0 as int,
            ) by {
                lemma_top_is_first(ws, p);
                lemma_before_transitive(current, ws[0], ws[p]);
            }
        }
    }
    current
}

/// What follows a step of the current iterator, for each way the step can
/// have ended. Where it failed, its error is handed on and the members stay
/// as they are. Where it went well, the current iterator is picked anew:
/// see `settle`.
fn after_advance<I: StorageIterator>(
    heap: &mut Vec<HeapWrapper<I>>,
    current: HeapWrapper<I>,
    moved: Result<(), Error>,
    Ghost(sources): Ghost<Seq<Seq<Pair>>>,
) -> (picked: Result<HeapWrapper<I>, Error>)
    requires
        moved is Ok ==> {
            &&& current.1.inv()
            &&& current.0 < sources.len()
            &&& current.1.remaining() == sources[current.0 as int]
            &&& members_linked(old(heap)@, sources, current.0 as int)
            &&& members_valid(old(heap)@, 0)
            &&& is_heap(old(heap)@)
            &&& members_complete(old(heap)@, sources, current.0 as int)
        },
    ensures
        match moved {
            Err(e) => picked == Err::<HeapWrapper<I>, Error>(e) && final(heap)@ == old(heap)@,
            Ok(_) => {
                &&& picked is Ok
                &&& members_valid(final(heap)@, 0)
                &&& is_heap(final(heap)@)
                &&& settled(final(heap)@, picked->Ok_0, sources)
            },
        },
{
    match moved {
        Err(e) => Err(e),
        Ok(_) => Ok(settle(heap, current, Ghost(sources))),
    }
}

/// What is left of each of the iterators, in their order.
pub open spec fn remainders<I: StorageIterator>(iters: Seq<Box<I>>) -> Seq<Seq<Pair>> {
    Seq::new(iters.len(), |i: int| iters[i].remaining())
}

/// Every one of the iterators is in order with itself.
pub open spec fn all_inv<I: StorageIterator>(iters: Seq<Box<I>>) -> bool {
    forall|i: int| 0 <= i < iters.len() ==> (#[trigger] iters[i]).inv()
}

/// Merges iterators of one type into one ordered stream. Where a key is in
/// more than one of them, the pair of the iterator with the smallest index
/// is given and the others are skipped.
pub struct MergeIterator<I: StorageIterator> {
    /// The iterators that are at a pair, but for the current one, as a
    /// binary heap with the smallest head first.
    iters: Vec<HeapWrapper<I>>,
    /// The iterator whose pair is the current one.
    current: Option<HeapWrapper<I>>,
    /// What is left of each source, by the index of the source.
    sources: Ghost<Seq<Seq<Pair>>>,
}

impl<I: StorageIterator> MergeIterator<I> {
    /// What is left of each source, by the index of the source.
    pub closed spec fn sources(&self) -> Seq<Seq<Pair>> {
        self.sources@
    }

    /// What holds of every merge between calls: the sources are sorted,
    /// the current iterator holds the head that is before all others, and
    /// the heap holds every other iterator that is at a pair.
    pub closed spec fn wf(&self) -> bool {
        let sources = self.sources@;
        let heap = self.iters@;
        &&& sources_sorted(sources)
        &&& members_valid(heap, 0)
        &&& is_heap(heap)
        &&& match self.current {
            None => heap.len() == 0 && members_complete(heap, sources, -1),
            Some(cur) => settled(heap, cur, sources),
        }
    }

    /// Creates a merge of the iterators. The index of each in the list is
    /// the index of its source: the first is the newest.
    pub fn create(iters: Vec<Box<I>>) -> (merge: Self)
        requires
            all_inv(iters@),
            sources_sorted(remainders(iters@)),
        ensures
            merge.wf(),
            merge.sources() == remainders(iters@),
            iters@.len() == 0 ==> merge.held() == Seq::<I>::empty(),
    {
        let ghost sources = remainders(iters@);
        let ghost all = iters@;
        let count = iters.len();
        if count == 0 {
            let merge = Self { iters: Vec::new(), current: None, sources: Ghost(sources) };
            assert(merge.held() =~= Seq::<I>::empty());
            return merge;
        }
        let mut any_valid = false;
        let mut i: usize = 0;
        let ghost mut witness: int = 0;
        while i < count
            invariant
                count == iters@.len(),
                all_inv(iters@),
                sources == remainders(iters@),
                i <= count,
                any_valid ==> 0 <= witness < count && sources[witness].len() > 0,
                !any_valid ==> forall|j: int| 0 <= j < i ==> (#[trigger] sources[j]).len() == 0,
            decreases count - i,
        {
            assert(iters@[i as int].inv());
            if iters[i].is_valid() {
                any_valid = true;
                proof {
                    witness = i as int;
                }
            }
            i += 1;
        }
        let mut iters = iters;
        if !any_valid {
            assert(iters@[count - 1].inv());
            let last = iters.pop().unwrap();
            assert(sources[count - 1].len() == 0);
            return Self {
                iters: Vec::new(),
                current: Some(HeapWrapper(0, last)),
                sources: Ghost(sources),
            };
        }
        let mut heap: Vec<HeapWrapper<I>> = Vec::new();
        while iters.len() > 0
            invariant
                iters@.len() <= count,
                count == all.len(),
                iters@ == all.subrange(0, iters@.len() as int),
                all_inv(all),
                sources == remainders(all),
                members_linked(heap@, sources, -1),
                members_valid(heap@, 0),
                is_heap(heap@),
                forall|p: int| 0 <= p < heap@.len() ==> (#[trigger] heap@[p]).0 >= iters@.len(),
                forall|j: int|
                    iters@.len() <= j < count && (#[trigger] sources[j]).len() > 0 ==> has_member(
                        heap@,
                        j,
                    ),
            decreases iters@.len(),
        {
            let idx = iters.len() - 1;
            assert(iters@[idx as int] == all[idx as int]);
            assert(all[idx as int].inv());
            let iter = iters.pop().unwrap();
            if iter.is_valid() {
                let ghost ws = heap@;
                heap.push(HeapWrapper(idx, iter));
                proof {
                    let xs = heap@;
                    assert forall|p: int| 0 <= p < xs.len() implies linked(
                        #[trigger] xs[p],
                        sources,
                        -1,
                    ) by {
                        if p < ws.len() {
                            assert(xs[p] == ws[p]);
                        }
                    }
                    assert forall|p: int, q: int| 0 <= p < q < xs.len() implies (#[trigger] xs[p]).0
                        != (#[trigger] xs[q]).0 by {
                        assert(xs[p] == ws[p]);
                        if q < ws.len() {
                            assert(xs[q] == ws[q]);
                        }
                    }
                    assert forall|p: int| 1 <= p < xs.len() && p != xs.len() - 1 implies before(
                        xs[parent(p)],
                        #[trigger] xs[p],
                    ) by {
                        assert(xs[p] == ws[p]);
                        assert(xs[parent(p)] == ws[parent(p)]);
                    }
                    assert forall|j: int| has_member(ws, j) implies has_member(xs, j) by {
                        let p = choose|p: int| 0 <= p < ws.len() && (#[trigger] ws[p]).0 == j;
                        assert(xs[p] == ws[p]);
                    }
                    assert(xs[ws.len() as int].0 == idx);
                    assert(has_member(xs, idx as int));
                    assert forall|j: int| has_member(xs, j) implies j >= iters@.len() by {
                        let p = choose|p: int| 0 <= p < xs.len() && (#[trigger] xs[p]).0 == j;
                        if p < ws.len() {
                            assert(xs[p] == ws[p]);
                        }
                    }
                }
                sift_up(&mut heap, Ghost(sources), Ghost(-1));
                proof {
                    let xs = heap@;
                    assert forall|p: int| 0 <= p < xs.len() implies (#[trigger] xs[p]).0
                        >= iters@.len() by {
                        assert(has_member(xs, xs[p].0 as int));
                    }
                }
            }
            assert(iters@ =~= all.subrange(0, iters@.len() as int));
        }
        let ghost ws = heap@;
        let ghost top_key = head_key(ws[0]);
        let ghost top_index = ws[0].0 as int;
        proof {
            assert(has_member(ws, witness));
            lemma_top_outside(ws, sources, -1);
        }
        let current = remove_top(
            &mut heap,
            Ghost(sources),
            Ghost(top_index),
            Ghost(top_key),
            Ghost(top_index),
        );
        assert(linked(ws[0], sources, -1));
        Self { iters: heap, current: Some(current), sources: Ghost(sources) }
    }
}

/// The iterators of the members, in the order of the members.
spec fn iterators_of<I: StorageIterator>(ws: Seq<HeapWrapper<I>>) -> Seq<I> {
    Seq::new(ws.len(), |p: int| *ws[p].1)
}

/// The sum of what the iterators say of the number of iterators that they
/// draw from.
pub open spec fn total_active<I: StorageIterator>(iters: Seq<I>) -> nat
    decreases iters.len(),
{
    if iters.len() == 0 {
        0
    } else {
        total_active(iters.drop_last()) + iters.last().active_iterators()
    }
}

/// The sum of two numbers of which each was held to the largest `usize`,
/// held to the largest `usize` again, is their sum held to it.
proof fn lemma_clip_sum(a: nat, b: nat)
    ensures
        clip(a + b) == if clip(a) as int + clip(b) as int > usize::MAX {
            usize::MAX
        } else {
            (clip(a) + clip(b)) as usize
        },
{
}

impl<I: StorageIterator> MergeIterator<I> {
    /// The iterators that the merge holds: those that wait in the heap,
    /// then the current one.
    pub closed spec fn held(&self) -> Seq<I> {
        match self.current {
            Some(cur) => iterators_of(self.iters@).push(*cur.1),
            None => iterators_of(self.iters@),
        }
    }

    /// The current iterator is the front of the sources.
    proof fn lemma_current_is_front(&self)
        requires
            self.wf(),
            self.current is Some,
            self.current->Some_0.1.remaining().len() > 0,
        ensures
            is_front(self.sources@, self.current->Some_0.0 as int),
    {
        let cur = self.current->Some_0;
        let sources = self.sources@;
        let heap = self.iters@;
        assert forall|j: int|
            0 <= j < sources.len() && (#[trigger] sources[j]).len() > 0 implies head_before(
            sources[cur.0 as int][0].0,
            cur.0 as int,
            sources[j][0].0,
            j,
        ) by {
            if j != cur.0 {
                assert(has_member(heap, j));
                let p = choose|p: int| 0 <= p < heap.len() && (#[trigger] heap[p]).0 == j;
                assert(linked(heap[p], sources, cur.0 as int));
            }
        }
    }

    /// A merge is at a pair exactly where its current iterator is.
    proof fn lemma_valid(&self)
        requires
            self.wf(),
        ensures
            (self.current is Some && self.current->Some_0.1.remaining().len() > 0) <==> merged(
                self.sources@,
            ).len() > 0,
            self.current is Some && self.current->Some_0.1.remaining().len() > 0 ==> merged(
                self.sources@,
            )[0] == self.current->Some_0.1.remaining()[0],
    {
        if self.current is Some && self.current->Some_0.1.remaining().len() > 0 {
            self.lemma_current_is_front();
            lemma_merged_step(self.sources@, self.current->Some_0.0 as int);
        } else {
            let sources = self.sources@;
            assert forall|j: int| 0 <= j < sources.len() implies (#[trigger] sources[j]).len()
                == 0 by {
                if sources[j].len() > 0 {
                    assert(has_member(self.iters@, j));
                }
            }
            lemma_merged_empty(sources);
        }
    }
}

impl<I: StorageIterator> StorageIterator for MergeIterator<I> {
    open spec fn inv(&self) -> bool {
        self.wf()
    }

    open spec fn remaining(&self) -> Seq<(Seq<u8>, Seq<u8>)> {
        merged(self.sources())
    }

    open spec fn active_iterators(&self) -> nat {
        total_active(self.held())
    }

    fn key(&self) -> (key: &[u8]) {
        proof {
            self.lemma_valid();
        }
        self.current.as_ref().unwrap().1.key()
    }

    fn value(&self) -> (value: &[u8]) {
        proof {
            self.lemma_valid();
        }
        self.current.as_ref().unwrap().1.value()
    }

    fn is_valid(&self) -> (valid: bool) {
        proof {
            self.lemma_valid();
        }
        match &self.current {
            Some(cur) => cur.1.is_valid(),
            None => false,
        }
    }

    /// Gives the next pair: moves every waiting iterator that is at the
    /// current key past it, moves the current iterator on, and takes as
    /// the current iterator the one whose head is before all others.
    fn next(&mut self) -> (moved: Result<(), Error>) {
        proof {
            self.lemma_valid();
            self.lemma_current_is_front();
        }
        let ghost before_sources = self.sources@;
        let mut current = self.current.take().unwrap();
        let ghost key = head_key(current);
        let ghost index = current.0 as int;
        proof {
            lemma_merged_step(before_sources, index);
        }
        let skipped = skip_key(&mut self.iters, &current, Ghost(before_sources))?;
        let stepped = current.1.next();
        let ghost now = skipped@.update(index, before_sources[index].drop_first());
        proof {
            lemma_skipped(self.iters@, before_sources, skipped@, key, index);
        }
        let next = after_advance(&mut self.iters, current, stepped, Ghost(now))?;
        self.sources = Ghost(now);
        self.current = Some(next);
        Ok(())
    }

    fn num_active_iterators(&self) -> (count: usize) {
        let mut total: usize = 0;
        let mut p: usize = 0;
        let ghost iters = iterators_of(self.iters@);
        assert(iters.take(0) =~= Seq::<I>::empty());
        while p < self.iters.len()
            invariant
                self.wf(),
                iters == iterators_of(self.iters@),
                p <= self.iters@.len(),
                total == clip(total_active(iters.take(p as int))),
            decreases self.iters@.len() - p,
        {
            proof {
                if self.current is Some && self.current->Some_0.1.remaining().len() > 0 {
                    assert(linked(
                        self.iters@[p as int],
                        self.sources@,
                        self.current->Some_0.0 as int,
                    ));
                }
            }
            let one = self.iters[p].1.num_active_iterators();
            proof {
                assert(iters.take(p + 1).drop_last() =~= iters.take(p as int));
                assert(iters.take(p + 1).last() == *self.iters@[p as int].1);
                lemma_clip_sum(
                    total_active(iters.take(p as int)),
                    self.iters@[p as int].1.active_iterators(),
                );
            }
            total = if one > usize::MAX - total {
                usize::MAX
            } else {
                total + one
            };
            p += 1;
        }
        assert(iters.take(self.iters@.len() as int) =~= iters);
        match &self.current {
            Some(cur) => {
                let one = cur.1.num_active_iterators();
                proof {
                    assert(self.held().drop_last() =~= iters);
                    lemma_clip_sum(total_active(iters), cur.1.active_iterators());
                }
                if one > usize::MAX - total {
                    usize::MAX
                } else {
                    total + one
                }
            },
            None => total,
        }
    }
}

} // verus!
