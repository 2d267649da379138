use crate::block::keys_of;
use crate::key::{
    key_lt, keys_increasing, lemma_key_lt_asymmetric, lemma_key_lt_irreflexive,
    lemma_key_lt_total, lemma_key_lt_transitive,
};
use vstd::prelude::*;

verus! {

/// A key with its value.
pub type Pair = (Seq<u8>, Seq<u8>);

/// The order in which a merge takes the heads of its sources: by key, and
/// among equal keys by the index of the source, the smaller index first.
pub open spec fn head_before(key: Seq<u8>, index: int, other_key: Seq<u8>, other_index: int) -> bool {
    key_lt(key, other_key) || (key == other_key && index <= other_index)
}

/// Source `index` holds the pair that a merge of `sources` gives next: it
/// is not empty, and its head is before the head of every other source
/// that is not empty.
pub open spec fn is_front(sources: Seq<Seq<Pair>>, index: int) -> bool {
    &&& 0 <= index < sources.len()
    &&& sources[index].len() > 0
    &&& forall|j: int|
        0 <= j < sources.len() && (#[trigger] sources[j]).len() > 0 ==> head_before(
            sources[index][0].0,
            index,
            sources[j][0].0,
            j,
        )
}

/// The source that holds the pair that a merge gives next.
pub open spec fn front(sources: Seq<Seq<Pair>>) -> int {
    choose|index: int| is_front(sources, index)
}

/// The sources after the key `key` was given: every source whose head has
/// that key has lost it.
pub open spec fn drop_key(sources: Seq<Seq<Pair>>, key: Seq<u8>) -> Seq<Seq<Pair>> {
    Seq::new(
        sources.len(),
        |j: int|
            if sources[j].len() > 0 && sources[j][0].0 == key {
                sources[j].drop_first()
            } else {
                sources[j]
            },
    )
}

/// Number of pairs in all sources together.
pub open spec fn total_len(sources: Seq<Seq<Pair>>) -> nat
    decreases sources.len(),
{
    if sources.len() == 0 {
        0
    } else {
        total_len(sources.drop_last()) + sources.last().len()
    }
}

/// The keys of each source increase strictly.
pub open spec fn sources_sorted(sources: Seq<Seq<Pair>>) -> bool {
    forall|j: int| 0 <= j < sources.len() ==> keys_increasing(keys_of(#[trigger] sources[j]))
}

/// Replacing one source changes the number of pairs by the difference in
/// length.
pub proof fn lemma_total_len_update(sources: Seq<Seq<Pair>>, index: int, source: Seq<Pair>)
    requires
        0 <= index < sources.len(),
    ensures
        total_len(sources.update(index, source)) == total_len(sources) - sources[index].len()
            + source.len(),
    decreases sources.len(),
{
    let updated = sources.update(index, source);
    if index == sources.len() - 1 {
        assert(updated.drop_last() =~= sources.drop_last());
    } else {
        assert(updated.drop_last() =~= sources.drop_last().update(index, source));
        lemma_total_len_update(sources.drop_last(), index, source);
    }
}

/// Where no source grows, the number of pairs does not grow; where one
/// source shrinks as well, it shrinks.
pub proof fn lemma_total_len_shrinks(before: Seq<Seq<Pair>>, after: Seq<Seq<Pair>>)
    requires
        before.len() == after.len(),
        forall|j: int| 0 <= j < before.len() ==> (#[trigger] after[j]).len() <= before[j].len(),
    ensures
        total_len(after) <= total_len(before),
        (exists|j: int| 0 <= j < before.len() && (#[trigger] after[j]).len() < before[j].len())
            ==> total_len(after) < total_len(before),
    decreases before.len(),
{
    if before.len() > 0 {
        let b = before.drop_last();
        let a = after.drop_last();
        assert forall|j: int| 0 <= j < b.len() implies (#[trigger] a[j]).len() <= b[j].len() by {
            assert(a[j] == after[j]);
            assert(b[j] == before[j]);
        }
        lemma_total_len_shrinks(b, a);
        if exists|j: int| 0 <= j < before.len() && (#[trigger] after[j]).len() < before[j].len() {
            let j = choose|j: int|
                0 <= j < before.len() && (#[trigger] after[j]).len() < before[j].len();
            if j < before.len() - 1 {
                assert(a[j] == after[j]);
                assert(b[j] == before[j]);
            }
        }
    }
}

/// Dropping the key of the front leaves fewer pairs.
pub proof fn lemma_drop_key_shrinks(sources: Seq<Seq<Pair>>, index: int)
    requires
        is_front(sources, index),
    ensures
        total_len(drop_key(sources, sources[index][0].0)) < total_len(sources),
{
    let after = drop_key(sources, sources[index][0].0);
    assert(after[index].len() < sources[index].len());
    lemma_total_len_shrinks(sources, after);
}

/// What a merge of `sources` gives: the head that is before all other
/// heads, then the merge of what is left once its key is dropped from
/// every source.
pub open spec fn merged(sources: Seq<Seq<Pair>>) -> Seq<Pair>
    decreases total_len(sources),
{
    if exists|index: int| is_front(sources, index) {
        let index = front(sources);
        proof {
            lemma_drop_key_shrinks(sources, index);
        }
        seq![sources[index][0]] + merged(drop_key(sources, sources[index][0].0))
    } else {
        Seq::empty()
    }
}

/// The order of heads is total, transitive, and two heads that are each
/// before the other are the same head.
pub proof fn lemma_head_before_total(a: Seq<u8>, i: int, b: Seq<u8>, j: int)
    ensures
        head_before(a, i, b, j) || head_before(b, j, a, i),
{
    lemma_key_lt_total(a, b);
}

pub proof fn lemma_head_before_transitive(a: Seq<u8>, i: int, b: Seq<u8>, j: int, c: Seq<u8>, k: int)
    requires
        head_before(a, i, b, j),
        head_before(b, j, c, k),
    ensures
        head_before(a, i, c, k),
{
    if key_lt(a, b) && key_lt(b, c) {
        lemma_key_lt_transitive(a, b, c);
    }
}

pub proof fn lemma_head_before_antisymmetric(a: Seq<u8>, i: int, b: Seq<u8>, j: int)
    requires
        head_before(a, i, b, j),
        head_before(b, j, a, i),
    ensures
        a == b,
        i == j,
{
    if key_lt(a, b) {
        lemma_key_lt_asymmetric(a, b);
    }
    if key_lt(b, a) {
        lemma_key_lt_asymmetric(b, a);
    }
    lemma_key_lt_irreflexive(a);
}

/// One source only holds the pair that a merge gives next.
pub proof fn lemma_front_unique(sources: Seq<Seq<Pair>>, index: int)
    requires
        is_front(sources, index),
    ensures
        front(sources) == index,
{
    let other = front(sources);
    assert(is_front(sources, other));
    assert(sources[index].len() > 0);
    assert(sources[other].len() > 0);
    lemma_head_before_antisymmetric(sources[index][0].0, index, sources[other][0].0, other);
}

/// A merge whose front is source `index` gives the head of that source
/// first, and then the merge of what is left once its key is dropped.
pub proof fn lemma_merged_step(sources: Seq<Seq<Pair>>, index: int)
    requires
        is_front(sources, index),
    ensures
        merged(sources) == seq![sources[index][0]] + merged(
            drop_key(sources, sources[index][0].0),
        ),
        merged(sources).len() > 0,
        merged(sources)[0] == sources[index][0],
        merged(sources).drop_first() == merged(drop_key(sources, sources[index][0].0)),
{
    lemma_front_unique(sources, index);
    lemma_drop_key_shrinks(sources, index);
    let rest = merged(drop_key(sources, sources[index][0].0));
    assert((seq![sources[index][0]] + rest).drop_first() =~= rest);
}

/// A merge of sources that are all empty gives nothing.
pub proof fn lemma_merged_empty(sources: Seq<Seq<Pair>>)
    requires
        forall|j: int| 0 <= j < sources.len() ==> (#[trigger] sources[j]).len() == 0,
    ensures
        merged(sources) == Seq::<Pair>::empty(),
{
    assert forall|index: int| !is_front(sources, index) by {
        if 0 <= index < sources.len() {
            assert(sources[index].len() == 0);
        }
    }
}

/// Source `j` holds `pair` at place `p`.
pub open spec fn holds_at(sources: Seq<Seq<Pair>>, j: int, p: int, pair: Pair) -> bool {
    0 <= j < sources.len() && 0 <= p < sources[j].len() && sources[j][p] == pair
}

/// One of the sources holds `pair`.
pub open spec fn holds(sources: Seq<Seq<Pair>>, pair: Pair) -> bool {
    exists|j: int, p: int| #[trigger] holds_at(sources, j, p, pair)
}

/// The source holds a pair with the key `key`.
pub open spec fn has_key(source: Seq<Pair>, key: Seq<u8>) -> bool {
    exists|p: int| 0 <= p < source.len() && (#[trigger] source[p]).0 == key
}

/// Source `j` is the first of the sources that holds the key `key`.
pub open spec fn first_with_key(sources: Seq<Seq<Pair>>, j: int, key: Seq<u8>) -> bool {
    &&& 0 <= j < sources.len()
    &&& has_key(sources[j], key)
    &&& forall|other: int| 0 <= other < j ==> !has_key(#[trigger] sources[other], key)
}

proof fn lemma_drop_key_sorted(sources: Seq<Seq<Pair>>, key: Seq<u8>)
    requires
        sources_sorted(sources),
    ensures
        sources_sorted(drop_key(sources, key)),
{
    let rest = drop_key(sources, key);
    assert forall|j: int| 0 <= j < rest.len() implies keys_increasing(
        keys_of(#[trigger] rest[j]),
    ) by {
        let keys = keys_of(sources[j]);
        assert(keys_increasing(keys));
        if rest[j] != sources[j] {
            let rest_keys = keys_of(rest[j]);
            assert forall|a: int, b: int| 0 <= a < b < rest_keys.len() implies key_lt(
                #[trigger] rest_keys[a],
                #[trigger] rest_keys[b],
            ) by {
                assert(rest_keys[a] == keys[a + 1]);
                assert(rest_keys[b] == keys[b + 1]);
            }
        }
    }
}

/// What is left once the key of the front is dropped lies behind that key.
proof fn lemma_rest_behind(sources: Seq<Seq<Pair>>, index: int, j: int, p: int)
    requires
        sources_sorted(sources),
        is_front(sources, index),
        0 <= j < sources.len(),
        0 <= p < drop_key(sources, sources[index][0].0)[j].len(),
    ensures
        key_lt(sources[index][0].0, drop_key(sources, sources[index][0].0)[j][p].0),
{
    let key = sources[index][0].0;
    let rest = drop_key(sources, key);
    let keys = keys_of(sources[j]);
    assert(keys_increasing(keys));
    assert(sources[j].len() > 0);
    assert(keys[0] == sources[j][0].0);
    if sources[j][0].0 == key {
        assert(rest[j][p] == sources[j][p + 1]);
        assert(keys[p + 1] == sources[j][p + 1].0);
    } else {
        assert(head_before(key, index, sources[j][0].0, j));
        assert(rest[j][p] == sources[j][p]);
        if p > 0 {
            assert(keys[p] == sources[j][p].0);
            lemma_key_lt_transitive(key, keys[0], keys[p]);
        }
    }
}

/// A pair of what is left once a key is dropped is a pair of the sources.
proof fn lemma_rest_holds(sources: Seq<Seq<Pair>>, key: Seq<u8>, pair: Pair)
    requires
        holds(drop_key(sources, key), pair),
    ensures
        holds(sources, pair),
{
    let rest = drop_key(sources, key);
    let (j, p) = choose|j: int, p: int| #[trigger] holds_at(rest, j, p, pair);
    if rest[j] == sources[j] {
        assert(holds_at(sources, j, p, pair));
    } else {
        assert(holds_at(sources, j, p + 1, pair));
    }
}

/// Every pair that a merge gives is a pair of one of its sources.
pub proof fn lemma_merged_from_sources(sources: Seq<Seq<Pair>>, q: int)
    requires
        0 <= q < merged(sources).len(),
    ensures
        holds(sources, merged(sources)[q]),
    decreases total_len(sources),
{
    if exists|index: int| is_front(sources, index) {
        let index = front(sources);
        lemma_merged_step(sources, index);
        let key = sources[index][0].0;
        if q == 0 {
            assert(holds_at(sources, index, 0, merged(sources)[q]));
        } else {
            lemma_drop_key_shrinks(sources, index);
            let rest = drop_key(sources, key);
            assert(merged(sources)[q] == merged(rest)[q - 1]);
            lemma_merged_from_sources(rest, q - 1);
            lemma_rest_holds(sources, key, merged(sources)[q]);
        }
    }
}

/// The keys that a merge of sorted sources gives increase strictly: no
/// key is given twice.
pub proof fn lemma_merged_increasing(sources: Seq<Seq<Pair>>)
    requires
        sources_sorted(sources),
    ensures
        keys_increasing(keys_of(merged(sources))),
    decreases total_len(sources),
{
    let keys = keys_of(merged(sources));
    if exists|index: int| is_front(sources, index) {
        let index = front(sources);
        lemma_merged_step(sources, index);
        lemma_drop_key_shrinks(sources, index);
        let key = sources[index][0].0;
        let rest = drop_key(sources, key);
        lemma_drop_key_sorted(sources, key);
        lemma_merged_increasing(rest);
        let rest_keys = keys_of(merged(rest));
        assert forall|a: int, b: int| 0 <= a < b < keys.len() implies key_lt(
            #[trigger] keys[a],
            #[trigger] keys[b],
        ) by {
            assert(merged(sources)[b] == merged(rest)[b - 1]);
            assert(keys[b] == rest_keys[b - 1]);
            if a == 0 {
                lemma_merged_from_sources(rest, b - 1);
                let given = merged(rest)[b - 1];
                let (j, p) = choose|j: int, p: int| #[trigger] holds_at(rest, j, p, given);
                lemma_rest_behind(sources, index, j, p);
            } else {
                assert(merged(sources)[a] == merged(rest)[a - 1]);
                assert(keys[a] == rest_keys[a - 1]);
            }
        }
    }
}

/// Among sources of which one is not empty, one holds the head that is
/// before all other heads.
pub proof fn lemma_front_exists(sources: Seq<Seq<Pair>>, upto: int, witness: int) -> (index: int)
    requires
        0 <= witness < upto <= sources.len(),
        sources[witness].len() > 0,
    ensures
        0 <= index < upto,
        sources[index].len() > 0,
        forall|j: int|
            0 <= j < upto && (#[trigger] sources[j]).len() > 0 ==> head_before(
                sources[index][0].0,
                index,
                sources[j][0].0,
                j,
            ),
    decreases upto,
{
    let last = upto - 1;
    if witness < last {
        let best = lemma_front_exists(sources, last, witness);
        if sources[last].len() > 0 && !head_before(
            sources[best][0].0,
            best,
            sources[last][0].0,
            last,
        ) {
            lemma_head_before_total(sources[best][0].0, best, sources[last][0].0, last);
            assert forall|j: int|
                0 <= j < upto && (#[trigger] sources[j]).len() > 0 implies head_before(
                sources[last][0].0,
                last,
                sources[j][0].0,
                j,
            ) by {
                if j < last {
                    lemma_head_before_transitive(
                        sources[last][0].0,
                        last,
                        sources[best][0].0,
                        best,
                        sources[j][0].0,
                        j,
                    );
                }
            }
            last
        } else {
            best
        }
    } else {
        if last > 0 && exists|j: int| 0 <= j < last && (#[trigger] sources[j]).len() > 0 {
            let other = choose|j: int| 0 <= j < last && (#[trigger] sources[j]).len() > 0;
            let best = lemma_front_exists(sources, last, other);
            if !head_before(sources[best][0].0, best, sources[last][0].0, last) {
                lemma_head_before_total(sources[best][0].0, best, sources[last][0].0, last);
                assert forall|j: int|
                    0 <= j < upto && (#[trigger] sources[j]).len() > 0 implies head_before(
                    sources[last][0].0,
                    last,
                    sources[j][0].0,
                    j,
                ) by {
                    if j < last {
                        lemma_head_before_transitive(
                            sources[last][0].0,
                            last,
                            sources[best][0].0,
                            best,
                            sources[j][0].0,
                            j,
                        );
                    }
                }
                last
            } else {
                best
            }
        } else {
            last
        }
    }
}

/// Where a key is in more than one source, a merge gives the pair of the
/// first source that holds the key: a pair of a source is given if no
/// source before it holds the key of the pair.
pub proof fn lemma_merged_precedence(sources: Seq<Seq<Pair>>, j: int, p: int)
    requires
        sources_sorted(sources),
        0 <= j < sources.len(),
        0 <= p < sources[j].len(),
        first_with_key(sources, j, sources[j][p].0),
    ensures
        merged(sources).contains(sources[j][p]),
    decreases total_len(sources),
{
    let pair = sources[j][p];
    let index = lemma_front_exists(sources, sources.len() as int, j);
    assert(is_front(sources, index));
    lemma_merged_step(sources, index);
    lemma_drop_key_shrinks(sources, index);
    let key = sources[index][0].0;
    let rest = drop_key(sources, key);
    let keys = keys_of(sources[j]);
    assert(keys_increasing(keys));
    assert(keys[0] == sources[j][0].0);
    assert(keys[p] == pair.0);
    assert(head_before(key, index, sources[j][0].0, j));
    if pair.0 == key {
        if p > 0 {
            lemma_key_lt_asymmetric(keys[0], keys[p]);
        }
        assert(p == 0);
        lemma_key_lt_irreflexive(key);
        assert(index <= j);
        if index < j {
            assert(has_key(sources[index], key));
        }
        assert(merged(sources)[0] == pair);
    } else {
        let p_now = if sources[j][0].0 == key {
            p - 1
        } else {
            p
        };
        assert(rest[j][p_now] == pair);
        lemma_drop_key_sorted(sources, key);
        assert forall|other: int| 0 <= other < j implies !has_key(#[trigger] rest[other], pair.0) by {
            if has_key(rest[other], pair.0) {
                let w = choose|w: int| 0 <= w < rest[other].len() && (#[trigger] rest[other][w]).0
                    == pair.0;
                if rest[other] == sources[other] {
                    assert(sources[other][w].0 == pair.0);
                } else {
                    assert(sources[other][w + 1].0 == pair.0);
                }
                assert(has_key(sources[other], pair.0));
            }
        }
        assert(has_key(rest[j], pair.0));
        lemma_merged_precedence(rest, j, p_now);
        let q = choose|q: int| 0 <= q < merged(rest).len() && merged(rest)[q] == pair;
        assert(merged(sources)[q + 1] == pair);
    }
}

/// Of the sources that hold a key, one is the first.
pub proof fn lemma_first_with_key(sources: Seq<Seq<Pair>>, j: int, key: Seq<u8>) -> (first: int)
    requires
        0 <= j < sources.len(),
        has_key(sources[j], key),
    ensures
        0 <= first <= j,
        first_with_key(sources, first, key),
    decreases j,
{
    if exists|other: int| 0 <= other < j && has_key(#[trigger] sources[other], key) {
        let other = choose|other: int| 0 <= other < j && has_key(#[trigger] sources[other], key);
        lemma_first_with_key(sources, other, key)
    } else {
        j
    }
}

/// A merge of sorted sources gives the keys of its sources, each once: a
/// key is given if and only if a source holds it.
pub proof fn lemma_merged_complete(sources: Seq<Seq<Pair>>, key: Seq<u8>)
    requires
        sources_sorted(sources),
    ensures
        has_key(merged(sources), key) <==> exists|j: int|
            0 <= j < sources.len() && has_key(#[trigger] sources[j], key),
        keys_increasing(keys_of(merged(sources))),
{
    lemma_merged_increasing(sources);
    if has_key(merged(sources), key) {
        let q = choose|q: int| 0 <= q < merged(sources).len() && (#[trigger] merged(sources)[q]).0
            == key;
        lemma_merged_from_sources(sources, q);
        let given = merged(sources)[q];
        let (j, p) = choose|j: int, p: int| #[trigger] holds_at(sources, j, p, given);
        assert(sources[j][p].0 == key);
        assert(has_key(sources[j], key));
    }
    if exists|j: int| 0 <= j < sources.len() && has_key(#[trigger] sources[j], key) {
        let j = choose|j: int| 0 <= j < sources.len() && has_key(#[trigger] sources[j], key);
        let first = lemma_first_with_key(sources, j, key);
        let p = choose|p: int| 0 <= p < sources[first].len() && (#[trigger] sources[first][p]).0
            == key;
        lemma_merged_precedence(sources, first, p);
        let q = choose|q: int| 0 <= q < merged(sources).len() && merged(sources)[q]
            == sources[first][p];
        assert(merged(sources)[q].0 == key);
    }
}

} // verus!
