use vstd::prelude::*;

verus! {

/// How one key stands to another in the order of keys.
#[derive(Clone, Copy, Debug, PartialEq, Eq, Structural)]
pub enum KeyOrder {
    Less,
    Equal,
    Greater,
}

/// Lexicographic comparison of `a` and `b` from position `i` on, given that
/// they agree before it: the first differing byte decides, and a key that
/// ends first is the smaller one.
pub open spec fn key_lt_from(a: Seq<u8>, b: Seq<u8>, i: int) -> bool
    decreases a.len() - i,
{
    if i >= b.len() {
        false
    } else if i >= a.len() {
        true
    } else if a[i] != b[i] {
        a[i] < b[i]
    } else {
        key_lt_from(a, b, i + 1)
    }
}

/// `a` comes strictly before `b` in the lexicographic order of raw bytes.
pub open spec fn key_lt(a: Seq<u8>, b: Seq<u8>) -> bool {
    key_lt_from(a, b, 0)
}

/// `a` comes before `b` or equals it.
pub open spec fn key_le(a: Seq<u8>, b: Seq<u8>) -> bool {
    !key_lt(b, a)
}

/// The order of `a` relative to `b`.
pub open spec fn key_order(a: Seq<u8>, b: Seq<u8>) -> KeyOrder {
    if key_lt(a, b) {
        KeyOrder::Less
    } else if key_lt(b, a) {
        KeyOrder::Greater
    } else {
        KeyOrder::Equal
    }
}

/// The keys of a sequence increase strictly from each entry to the next.
pub open spec fn keys_increasing(keys: Seq<Seq<u8>>) -> bool {
    forall|i: int, j: int| 0 <= i < j < keys.len() ==> key_lt(#[trigger] keys[i], #[trigger] keys[j])
}

proof fn lemma_lt_from_agree(a: Seq<u8>, b: Seq<u8>, i: int, j: int)
    requires
        0 <= i <= j,
        j <= a.len(),
        j <= b.len(),
        forall|k: int| #![trigger a[k]] i <= k < j ==> a[k] == b[k],
    ensures
        key_lt_from(a, b, i) == key_lt_from(a, b, j),
    decreases j - i,
{
    if i < j {
        assert(a[i] == b[i]);
        lemma_lt_from_agree(a, b, i + 1, j);
    }
}

proof fn lemma_lt_from_irreflexive(a: Seq<u8>, i: int)
    requires
        0 <= i,
    ensures
        !key_lt_from(a, a, i),
    decreases a.len() - i,
{
    if i < a.len() {
        lemma_lt_from_irreflexive(a, i + 1);
    }
}

proof fn lemma_lt_from_asymmetric(a: Seq<u8>, b: Seq<u8>, i: int)
    requires
        0 <= i,
        key_lt_from(a, b, i),
    ensures
        !key_lt_from(b, a, i),
    decreases a.len() - i,
{
    if i < a.len() && i < b.len() && a[i] == b[i] {
        lemma_lt_from_asymmetric(a, b, i + 1);
    }
}

proof fn lemma_lt_from_transitive(a: Seq<u8>, b: Seq<u8>, c: Seq<u8>, i: int)
    requires
        0 <= i,
        key_lt_from(a, b, i),
        key_lt_from(b, c, i),
    ensures
        key_lt_from(a, c, i),
    decreases a.len() - i,
{
    if i < a.len() && i < b.len() && i < c.len() && a[i] == b[i] && b[i] == c[i] {
        lemma_lt_from_transitive(a, b, c, i + 1);
    }
}

proof fn lemma_lt_from_total(a: Seq<u8>, b: Seq<u8>, i: int)
    requires
        0 <= i <= a.len(),
        i <= b.len(),
        forall|k: int| #![trigger a[k]] 0 <= k < i ==> a[k] == b[k],
    ensures
        key_lt_from(a, b, i) || key_lt_from(b, a, i) || a == b,
    decreases a.len() - i,
{
    if i < a.len() && i < b.len() {
        if a[i] == b[i] {
            lemma_lt_from_total(a, b, i + 1);
        }
    } else if i == a.len() && i == b.len() {
        assert(a =~= b);
    }
}

/// `a` and `b` agree on their first `at` bytes, and there `a` ends while
/// `b` goes on, or `a` has the smaller byte.
pub open spec fn decided_at(a: Seq<u8>, b: Seq<u8>, at: int) -> bool {
    &&& 0 <= at <= a.len()
    &&& at < b.len()
    &&& a.subrange(0, at) == b.subrange(0, at)
    &&& at == a.len() || a[at] < b[at]
}

proof fn lemma_lt_from_decided(a: Seq<u8>, b: Seq<u8>, i: int) -> (at: int)
    requires
        0 <= i <= a.len(),
        i <= b.len(),
        forall|k: int| #![trigger a[k]] 0 <= k < i ==> a[k] == b[k],
        key_lt_from(a, b, i),
    ensures
        decided_at(a, b, at),
    decreases a.len() - i,
{
    if i < a.len() && a[i] == b[i] {
        lemma_lt_from_decided(a, b, i + 1)
    } else {
        assert(a.subrange(0, i) =~= b.subrange(0, i));
        i
    }
}

/// One key comes before another exactly where, behind a common prefix,
/// the first ends while the second goes on, or the first has the smaller
/// byte.
pub proof fn lemma_key_lt_decided(a: Seq<u8>, b: Seq<u8>)
    ensures
        key_lt(a, b) <==> exists|at: int| decided_at(a, b, at),
{
    if key_lt(a, b) {
        let at = lemma_lt_from_decided(a, b, 0);
        assert(decided_at(a, b, at));
    }
    if exists|at: int| decided_at(a, b, at) {
        let at = choose|at: int| decided_at(a, b, at);
        assert forall|k: int| #![trigger a[k]] 0 <= k < at implies a[k] == b[k] by {
            assert(a.subrange(0, at)[k] == b.subrange(0, at)[k]);
        }
        lemma_lt_from_agree(a, b, 0, at);
    }
}

/// No key comes before itself.
pub proof fn lemma_key_lt_irreflexive(a: Seq<u8>)
    ensures
        !key_lt(a, a),
{
    lemma_lt_from_irreflexive(a, 0);
}

/// Of two keys at most one comes before the other.
pub proof fn lemma_key_lt_asymmetric(a: Seq<u8>, b: Seq<u8>)
    requires
        key_lt(a, b),
    ensures
        !key_lt(b, a),
        a != b,
{
    lemma_lt_from_asymmetric(a, b, 0);
    lemma_lt_from_irreflexive(a, 0);
}

/// The order of keys is transitive.
pub proof fn lemma_key_lt_transitive(a: Seq<u8>, b: Seq<u8>, c: Seq<u8>)
    requires
        key_lt(a, b),
        key_lt(b, c),
    ensures
        key_lt(a, c),
{
    lemma_lt_from_transitive(a, b, c, 0);
}

/// The order of keys is total: two keys are equal, or one comes before the other.
pub proof fn lemma_key_lt_total(a: Seq<u8>, b: Seq<u8>)
    ensures
        key_lt(a, b) || key_lt(b, a) || a == b,
{
    lemma_lt_from_total(a, b, 0);
}

/// `a <= b < c` and `a < b <= c` both give `a < c`.
pub proof fn lemma_key_le_lt_transitive(a: Seq<u8>, b: Seq<u8>, c: Seq<u8>)
    requires
        (key_le(a, b) && key_lt(b, c)) || (key_lt(a, b) && key_le(b, c)),
    ensures
        key_lt(a, c),
{
    lemma_key_lt_total(a, b);
    lemma_key_lt_total(b, c);
    if key_lt(a, b) && key_lt(b, c) {
        lemma_key_lt_transitive(a, b, c);
    }
}

/// `a <= b <= c` gives `a <= c`.
pub proof fn lemma_key_le_transitive(a: Seq<u8>, b: Seq<u8>, c: Seq<u8>)
    requires
        key_le(a, b),
        key_le(b, c),
    ensures
        key_le(a, c),
{
    if key_lt(c, a) {
        lemma_key_le_lt_transitive(b, c, a);
    }
}

/// The order of two keys says which of the three cases holds: the first
/// comes before the second, they are equal, or the second comes first.
pub proof fn lemma_key_order(a: Seq<u8>, b: Seq<u8>)
    ensures
        key_order(a, b) == KeyOrder::Less <==> key_lt(a, b),
        key_order(a, b) == KeyOrder::Equal <==> a == b,
        key_order(a, b) == KeyOrder::Greater <==> key_lt(b, a),
{
    lemma_key_lt_total(a, b);
    lemma_key_lt_irreflexive(a);
    if key_lt(a, b) {
        lemma_key_lt_asymmetric(a, b);
    }
    if key_lt(b, a) {
        lemma_key_lt_asymmetric(b, a);
    }
}

/// Compares two keys byte by byte.
pub fn compare_keys(a: &[u8], b: &[u8]) -> (order: KeyOrder)
    ensures
        order == key_order(a@, b@),
        order == KeyOrder::Less <==> key_lt(a@, b@),
        order == KeyOrder::Equal <==> a@ == b@,
        order == KeyOrder::Greater <==> key_lt(b@, a@),
{
    proof {
        lemma_key_order(a@, b@);
    }
    let mut i: usize = 0;
    while i < a.len() && i < b.len()
        invariant
            i <= a@.len(),
            i <= b@.len(),
            forall|k: int| #![trigger a@[k]] 0 <= k < i ==> a@[k] == b@[k],
        decreases a@.len() - i,
    {
        if a[i] < b[i] {
            proof {
                lemma_lt_from_agree(a@, b@, 0, i as int);
                lemma_lt_from_agree(b@, a@, 0, i as int);
            }
            return KeyOrder::Less;
        }
        if a[i] > b[i] {
            proof {
                lemma_lt_from_agree(a@, b@, 0, i as int);
                lemma_lt_from_agree(b@, a@, 0, i as int);
            }
            return KeyOrder::Greater;
        }
        i += 1;
    }
    proof {
        lemma_lt_from_agree(a@, b@, 0, i as int);
        lemma_lt_from_agree(b@, a@, 0, i as int);
        lemma_key_lt_irreflexive(a@);
    }
    if i < b.len() {
        KeyOrder::Less
    } else if i < a.len() {
        KeyOrder::Greater
    } else {
        assert(a@ =~= b@);
        KeyOrder::Equal
    }
}

/// Compares the key `prefix ++ rest` with `target` without building it.
pub fn compare_joined(prefix: &[u8], rest: &[u8], target: &[u8]) -> (order: KeyOrder)
    requires
        prefix@.len() + rest@.len() <= usize::MAX,
    ensures
        order == key_order(prefix@ + rest@, target@),
        order == KeyOrder::Less <==> key_lt(prefix@ + rest@, target@),
        order == KeyOrder::Equal <==> prefix@ + rest@ == target@,
        order == KeyOrder::Greater <==> key_lt(target@, prefix@ + rest@),
{
    proof {
        lemma_key_order(prefix@ + rest@, target@);
    }
    let ghost joined = prefix@ + rest@;
    let plen = prefix.len();
    let total = plen + rest.len();
    let mut i: usize = 0;
    while i < total && i < target.len()
        invariant
            joined == prefix@ + rest@,
            plen == prefix@.len(),
            total == joined.len(),
            i <= total,
            i <= target@.len(),
            forall|k: int| #![trigger joined[k]] 0 <= k < i ==> joined[k] == target@[k],
        decreases total - i,
    {
        let byte = if i < plen {
            prefix[i]
        } else {
            rest[i - plen]
        };
        assert(byte == joined[i as int]);
        if byte < target[i] {
            proof {
                lemma_lt_from_agree(joined, target@, 0, i as int);
                lemma_lt_from_agree(target@, joined, 0, i as int);
            }
            return KeyOrder::Less;
        }
        if byte > target[i] {
            proof {
                lemma_lt_from_agree(joined, target@, 0, i as int);
                lemma_lt_from_agree(target@, joined, 0, i as int);
            }
            return KeyOrder::Greater;
        }
        i += 1;
    }
    proof {
        lemma_lt_from_agree(joined, target@, 0, i as int);
        lemma_lt_from_agree(target@, joined, 0, i as int);
        lemma_key_lt_irreflexive(joined);
    }
    if i < target.len() {
        KeyOrder::Less
    } else if i < total {
        KeyOrder::Greater
    } else {
        assert(joined =~= target@);
        KeyOrder::Equal
    }
}

} // verus!
