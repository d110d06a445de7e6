//! Orders: the dictionary order on texts, and stable arrangement of keyed
//! items.

use vstd::prelude::*;

verus! {

/// Dictionary order on texts by code point: `a` is at or before `b`.
pub open spec fn lex_le(a: Seq<char>, b: Seq<char>) -> bool
    decreases a.len(),
{
    if a.len() == 0 {
        true
    } else if b.len() == 0 {
        false
    } else if a[0] as u32 != b[0] as u32 {
        (a[0] as u32) < (b[0] as u32)
    } else {
        lex_le(a.skip(1), b.skip(1))
    }
}

/// Characters with the same code point are the same character.
pub proof fn lemma_code_point_identifies(c: char, d: char)
    ensures
        c as u32 == d as u32 ==> c == d,
{
}

/// Any two texts are comparable.
pub proof fn lemma_lex_total(a: Seq<char>, b: Seq<char>)
    ensures
        lex_le(a, b) || lex_le(b, a),
    decreases a.len(),
{
    if a.len() > 0 && b.len() > 0 && a[0] as u32 == b[0] as u32 {
        lemma_lex_total(a.skip(1), b.skip(1));
    }
}

/// The dictionary order is transitive.
pub proof fn lemma_lex_transitive(a: Seq<char>, b: Seq<char>, c: Seq<char>)
    requires
        lex_le(a, b),
        lex_le(b, c),
    ensures
        lex_le(a, c),
    decreases a.len(),
{
    if a.len() > 0 && b.len() > 0 && c.len() > 0 && a[0] as u32 == b[0] as u32 && b[0] as u32
        == c[0] as u32 {
        lemma_lex_transitive(a.skip(1), b.skip(1), c.skip(1));
    }
}

/// Texts that are each at or before the other are the same text.
pub proof fn lemma_lex_antisymmetric(a: Seq<char>, b: Seq<char>)
    requires
        lex_le(a, b),
        lex_le(b, a),
    ensures
        a == b,
    decreases a.len(),
{
    if a.len() > 0 && b.len() > 0 {
        lemma_lex_antisymmetric(a.skip(1), b.skip(1));
        lemma_code_point_identifies(a[0], b[0]);
        assert(a == seq![a[0]] + a.skip(1));
        assert(b == seq![b[0]] + b.skip(1));
    } else {
        assert(a == b);
    }
}

/// Every text is at or before itself.
pub proof fn lemma_lex_reflexive(a: Seq<char>)
    ensures
        lex_le(a, a),
    decreases a.len(),
{
    if a.len() > 0 {
        lemma_lex_reflexive(a.skip(1));
    }
}

/// Tells whether `a` is at or before `b` in dictionary order.
pub fn text_le(a: &Vec<char>, b: &Vec<char>) -> (r: bool)
    ensures
        r == lex_le(a@, b@),
{
    let mut i: usize = 0;
    assert(a@.skip(0) == a@ && b@.skip(0) == b@);
    while i < a.len() && i < b.len()
        invariant
            i <= a.len(),
            i <= b.len(),
            lex_le(a@, b@) == lex_le(a@.skip(i as int), b@.skip(i as int)),
        decreases a.len() - i,
    {
        let ca: char = a[i];
        let cb: char = b[i];
        let x: u32 = ca as u32;
        let y: u32 = cb as u32;
        assert(a@.skip(i as int)[0] == a@[i as int]);
        assert(b@.skip(i as int)[0] == b@[i as int]);
        if x != y {
            return x < y;
        }
        assert(a@.skip(i as int).skip(1) == a@.skip(i + 1));
        assert(b@.skip(i as int).skip(1) == b@.skip(i + 1));
        i = i + 1;
    }
    i == a.len()
}

/// A relation between the places of a list of items: `le(a, b)` says that
/// the key of item `a` is at or before the key of item `b`.
pub type Relation = spec_fn(int, int) -> bool;

/// On the first `n` places `le` is total and transitive.
pub open spec fn is_total_preorder(le: Relation, n: nat) -> bool {
    &&& forall|a: int, b: int| 0 <= a < n && 0 <= b < n ==> #[trigger] le(a, b) || le(b, a)
    &&& forall|a: int, b: int, c: int|
        0 <= a < n && 0 <= b < n && 0 <= c < n && #[trigger] le(a, b) && #[trigger] le(b, c)
            ==> le(a, c)
}

/// Item `a` goes before item `b`: its key is at or before the other, and of
/// two items with tied keys the earlier place goes first.
pub open spec fn goes_before(le: Relation, a: int, b: int) -> bool {
    le(a, b) && (le(b, a) ==> a < b)
}

/// `order` lists each of the first `m` places once, in the order given by
/// `goes_before`.
pub open spec fn is_stable_order_upto(le: Relation, order: Seq<int>, m: nat) -> bool {
    &&& order.len() == m
    &&& forall|i: int| 0 <= i < m ==> 0 <= #[trigger] order[i] < m
    &&& forall|k: int| 0 <= k < m ==> #[trigger] order.contains(k)
    &&& forall|i: int, j: int|
        0 <= i < j < m ==> goes_before(le, #[trigger] order[i], #[trigger] order[j])
}

/// `order` is the stable sorted arrangement of `n` items: every place occurs
/// once, keys never decrease along it, and items with tied keys stay in
/// the order in which the list holds them.
pub open spec fn is_stable_order(le: Relation, n: nat, order: Seq<int>) -> bool {
    is_stable_order_upto(le, order, n)
}

/// The stable sorted arrangement of `n` items under `le`.
pub open spec fn stable_order_of(le: Relation, n: nat) -> Seq<int> {
    choose|order: Seq<int>| is_stable_order(le, n, order)
}

/// The items of `items` in the order that `order` lists their places.
pub open spec fn arrange<T>(items: Seq<T>, order: Seq<int>) -> Seq<T> {
    Seq::new(order.len(), |i: int| items[order[i]])
}

/// Putting item `m` into a stable order of the items before it, behind the
/// last item that goes before it, gives a stable order of one item more.
pub proof fn lemma_insert_keeps_order(le: Relation, before: Seq<int>, m: nat, p: int)
    requires
        is_total_preorder(le, m + 1),
        is_stable_order_upto(le, before, m),
        0 <= p <= m,
        forall|q: int| p <= q < m ==> !le(#[trigger] before[q], m as int),
        p > 0 ==> le(before[p - 1], m as int),
    ensures
        is_stable_order_upto(le, before.insert(p, m as int), m + 1),
{
    let after = before.insert(p, m as int);
    assert forall|q: int| 0 <= q < p implies le(#[trigger] before[q], m as int) by {
        if q < p - 1 {
            assert(goes_before(le, before[q], before[p - 1]));
            assert(le(before[q], before[p - 1]));
            assert(le(before[p - 1], m as int));
        }
    }
    assert forall|k: int| 0 <= k < m + 1 implies #[trigger] after.contains(k) by {
        if k == m {
            assert(after[p] == k);
        } else {
            assert(before.contains(k));
            let i = choose|i: int| 0 <= i < before.len() && before[i] == k;
            if i < p {
                assert(after[i] == k);
            } else {
                assert(after[i + 1] == k);
            }
        }
    }
    assert forall|i: int, j: int| 0 <= i < j < m + 1 implies goes_before(
        le,
        #[trigger] after[i],
        #[trigger] after[j],
    ) by {
        if j < p {
            assert(after[i] == before[i] && after[j] == before[j]);
        } else if j == p {
            assert(after[i] == before[i]);
        } else if i == p {
            assert(after[j] == before[j - 1]);
            assert(le(before[j - 1], m as int) || le(m as int, before[j - 1]));
        } else if i < p {
            assert(after[i] == before[i] && after[j] == before[j - 1]);
        } else {
            assert(after[i] == before[i - 1] && after[j] == before[j - 1]);
        }
    }
}

/// Going down from `p`, the first place behind which item `m` can stand.
proof fn lemma_slot(le: Relation, before: Seq<int>, m: nat, p: int) -> (r: int)
    requires
        0 <= p <= m,
        before.len() == m,
        forall|q: int| p <= q < m ==> !le(#[trigger] before[q], m as int),
    ensures
        0 <= r <= p,
        forall|q: int| r <= q < m ==> !le(#[trigger] before[q], m as int),
        r > 0 ==> le(before[r - 1], m as int),
    decreases p,
{
    if p > 0 && !le(before[p - 1], m as int) {
        lemma_slot(le, before, m, p - 1)
    } else {
        p
    }
}

/// Under a total preorder every list of items has a stable order.
pub proof fn lemma_stable_order_exists(le: Relation, n: nat) -> (order: Seq<int>)
    requires
        is_total_preorder(le, n),
    ensures
        is_stable_order(le, n, order),
        is_stable_order(le, n, stable_order_of(le, n)),
    decreases n,
{
    if n == 0 {
        let order = Seq::<int>::empty();
        assert(is_stable_order(le, n, order));
        order
    } else {
        let m = (n - 1) as nat;
        let before = lemma_stable_order_exists(le, m);
        let p = lemma_slot(le, before, m, m as int);
        lemma_insert_keeps_order(le, before, m, p);
        let order = before.insert(p, m as int);
        assert(is_stable_order(le, n, order));
        order
    }
}

/// Two stable orders of the same items agree on their first `i` places.
proof fn lemma_stable_orders_agree(le: Relation, n: nat, a: Seq<int>, b: Seq<int>, i: int)
    requires
        is_stable_order(le, n, a),
        is_stable_order(le, n, b),
        0 <= i <= n,
    ensures
        forall|j: int| 0 <= j < i ==> a[j] == b[j],
    decreases i,
{
    if i > 0 {
        lemma_stable_orders_agree(le, n, a, b, i - 1);
        let x = a[i - 1];
        let y = b[i - 1];
        if x != y {
            assert(b.contains(x));
            let jb = choose|j: int| 0 <= j < b.len() && b[j] == x;
            assert(a.contains(y));
            let ja = choose|j: int| 0 <= j < a.len() && a[j] == y;
            if jb < i - 1 {
                assert(goes_before(le, a[jb], a[i - 1]));
            }
            if ja < i - 1 {
                assert(goes_before(le, b[ja], b[i - 1]));
            }
            assert(goes_before(le, b[i - 1], b[jb]));
            assert(goes_before(le, a[i - 1], a[ja]));
        }
    }
}

/// A list of items has only one stable order.
pub proof fn lemma_stable_order_unique(le: Relation, n: nat, a: Seq<int>, b: Seq<int>)
    requires
        is_stable_order(le, n, a),
        is_stable_order(le, n, b),
    ensures
        a == b,
{
    lemma_stable_orders_agree(le, n, a, b, n as int);
    assert(a =~= b);
}

/// A stable order is the one that `stable_order_of` names.
pub proof fn lemma_stable_order_is_named(le: Relation, n: nat, order: Seq<int>)
    requires
        is_stable_order(le, n, order),
    ensures
        order == stable_order_of(le, n),
{
    lemma_stable_order_unique(le, n, order, stable_order_of(le, n));
}

/// In a stable order no place occurs twice.
pub proof fn lemma_stable_order_distinct(le: Relation, n: nat, order: Seq<int>)
    requires
        is_stable_order(le, n, order),
    ensures
        forall|i: int, j: int|
            0 <= i < j < order.len() ==> #[trigger] order[i] != #[trigger] order[j],
{
    assert forall|i: int, j: int| 0 <= i < j < order.len() implies #[trigger] order[i]
        != #[trigger] order[j] by {
        assert(goes_before(le, order[i], order[j]));
    }
}

/// Relations that agree on the first `n` places have the same stable orders.
pub proof fn lemma_same_relation(le1: Relation, le2: Relation, n: nat, order: Seq<int>)
    requires
        is_stable_order(le1, n, order),
        forall|a: int, b: int| 0 <= a < n && 0 <= b < n ==> #[trigger] le1(a, b) == le2(a, b),
    ensures
        is_stable_order(le2, n, order),
{
    assert forall|i: int, j: int| 0 <= i < j < n implies goes_before(
        le2,
        #[trigger] order[i],
        #[trigger] order[j],
    ) by {
        assert(goes_before(le1, order[i], order[j]));
        assert(le1(order[i], order[j]) == le2(order[i], order[j]));
        assert(le1(order[j], order[i]) == le2(order[j], order[i]));
    }
}

/// A key by which items are put in order. `key_le` is a total preorder.
pub trait SortKey: Sized {
    /// `self` is at or before `other`.
    spec fn key_le(&self, other: &Self) -> bool;

    /// Any two keys are comparable.
    proof fn lemma_total(a: &Self, b: &Self)
        ensures
            a.key_le(b) || b.key_le(a),
    ;

    /// The order of the keys is transitive.
    proof fn lemma_transitive(a: &Self, b: &Self, c: &Self)
        requires
            a.key_le(b),
            b.key_le(c),
        ensures
            a.key_le(c),
    ;

    /// Decides `key_le`.
    fn precedes(&self, other: &Self) -> (r: bool)
        ensures
            r == self.key_le(other),
    ;
}

impl SortKey for u32 {
    open spec fn key_le(&self, other: &Self) -> bool {
        *self <= *other
    }

    proof fn lemma_total(a: &Self, b: &Self) {
    }

    proof fn lemma_transitive(a: &Self, b: &Self, c: &Self) {
    }

    fn precedes(&self, other: &Self) -> (r: bool) {
        *self <= *other
    }
}

/// The relation between the places of `keys` that their keys give.
pub open spec fn key_relation<K: SortKey>(keys: Seq<K>) -> Relation {
    |a: int, b: int| keys[a].key_le(&keys[b])
}

/// The relation of a list of keys is a total preorder.
pub proof fn lemma_key_relation<K: SortKey>(keys: Seq<K>)
    ensures
        is_total_preorder(key_relation(keys), keys.len()),
{
    let le = key_relation(keys);
    assert forall|a: int, b: int| 0 <= a < keys.len() && 0 <= b < keys.len() implies #[trigger] le(
        a,
        b,
    ) || le(b, a) by {
        K::lemma_total(&keys[a], &keys[b]);
    }
    assert forall|a: int, b: int, c: int|
        0 <= a < keys.len() && 0 <= b < keys.len() && 0 <= c < keys.len() && #[trigger] le(a, b)
            && #[trigger] le(b, c) implies le(a, c) by {
        K::lemma_transitive(&keys[a], &keys[b], &keys[c]);
    }
}

/// The places that a list of machine indices names.
pub open spec fn places(order: Seq<usize>) -> Seq<int> {
    order.map_values(|x: usize| x as int)
}

/// The places of `keys` in stable sorted order.
pub fn stable_order<K: SortKey>(keys: &Vec<K>) -> (order: Vec<usize>)
    ensures
        is_stable_order(key_relation(keys@), keys@.len(), places(order@)),
{
    let n = keys.len();
    let mut order: Vec<usize> = Vec::new();
    let mut m: usize = 0;
    let ghost le = key_relation(keys@);
    proof {
        lemma_key_relation(keys@);
    }
    while m < n
        invariant
            m <= n,
            n == keys.len(),
            le == key_relation(keys@),
            is_total_preorder(le, n as nat),
            is_stable_order_upto(le, places(order@), m as nat),
            forall|i: int| 0 <= i < order@.len() ==> #[trigger] order@[i] < m,
        decreases n - m,
    {
        let mut p: usize = m;
        while p > 0 && !keys[order[p - 1]].precedes(&keys[m])
            invariant
                p <= m < n,
                n == keys.len(),
                le == key_relation(keys@),
                is_stable_order_upto(le, places(order@), m as nat),
                forall|i: int| 0 <= i < order@.len() ==> #[trigger] order@[i] < m,
                forall|q: int| p <= q < m ==> !le(#[trigger] places(order@)[q], m as int),
            decreases p,
        {
            assert(places(order@)[p - 1] == order@[p - 1]);
            p = p - 1;
        }
        proof {
            if p > 0 {
                assert(places(order@)[p - 1] == order@[p - 1]);
            }
            lemma_insert_keeps_order(le, places(order@), m as nat, p as int);
        }
        let ghost before = order@;
        order.insert(p, m);
        assert(places(order@) =~= places(before).insert(p as int, m as int));
        m = m + 1;
    }
    order
}

} // verus!
