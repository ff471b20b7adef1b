//! The order of texts, and sorting by it.
use vstd::prelude::*;

use crate::text::chars_of;
#[allow(unused_imports)]
use crate::text::texts_of;

verus! {

/// `a` stands strictly before `b` in the order of their characters.
pub open spec fn before(a: Seq<char>, b: Seq<char>) -> bool
    decreases a.len(),
{
    if b.len() == 0 {
        false
    } else if a.len() == 0 {
        true
    } else if a[0] != b[0] {
        a[0] < b[0]
    } else {
        before(a.drop_first(), b.drop_first())
    }
}

/// A value that has a text by which it is ordered.
pub trait Keyed: Sized {
    /// The text by which the value is ordered.
    spec fn key(self) -> Seq<char>;

    /// That text.
    fn key_text(&self) -> (r: &str)
        ensures
            r@ == self.key(),
    ;
}

impl Keyed for String {
    open spec fn key(self) -> Seq<char> {
        self@
    }

    fn key_text(&self) -> (r: &str) {
        self.as_str()
    }
}

/// No key stands before an earlier one.
pub open spec fn is_sorted<T: Keyed>(s: Seq<T>) -> bool {
    forall|i: int, j: int|
        0 <= i < j < s.len() ==> !before(#[trigger] s[j].key(), #[trigger] s[i].key())
}

/// The items of `s` with key `key`, in their order.
pub open spec fn with_key<T: Keyed>(s: Seq<T>, key: Seq<char>) -> Seq<T> {
    s.filter(has_key::<T>(key))
}

/// Having the key `key`.
pub open spec fn has_key<T: Keyed>(key: Seq<char>) -> spec_fn(T) -> bool {
    |x: T| x.key() == key
}

/// `sorted` holds the items of `s` by the order of their keys; items with equal keys keep
/// their order.
pub open spec fn is_stable_sort<T: Keyed>(s: Seq<T>, sorted: Seq<T>) -> bool {
    &&& is_sorted(sorted)
    &&& forall|key: Seq<char>| #[trigger] with_key(sorted, key) == with_key(s, key)
}

/// Whether `a` stands strictly before `b`.
pub fn text_before(a: &str, b: &str) -> (r: bool)
    ensures
        r == before(a@, b@),
{
    let ca = chars_of(a);
    let cb = chars_of(b);
    let mut i: usize = 0;
    assert(a@.skip(0) =~= a@);
    assert(b@.skip(0) =~= b@);
    while i < ca.len() && i < cb.len()
        invariant
            i <= ca.len(),
            i <= cb.len(),
            ca@ == a@,
            cb@ == b@,
            before(a@, b@) == before(a@.skip(i as int), b@.skip(i as int)),
        decreases ca.len() - i,
    {
        if ca[i] != cb[i] {
            return ca[i] < cb[i];
        }
        assert(a@.skip(i as int).drop_first() =~= a@.skip(i + 1));
        assert(b@.skip(i as int).drop_first() =~= b@.skip(i + 1));
        i = i + 1;
    }
    i < cb.len()
}

/// The items of `items`, sorted by their keys; items with equal keys keep their order.
pub fn sort_by_key<T: Keyed>(items: Vec<T>) -> (r: Vec<T>)
    ensures
        is_stable_sort(items@, r@),
{
    let ghost all = items@;
    let mut rest: Vec<T> = items;
    let mut sorted: Vec<T> = Vec::new();
    proof {
        assert forall|key: Seq<char>| #[trigger]
            with_key(rest@, key) + with_key(sorted@, key) == with_key(all, key) by {
            reveal(Seq::filter);
            assert(with_key(sorted@, key) =~= Seq::<T>::empty());
        }
    }
    while rest.len() > 0
        invariant
            is_sorted(sorted@),
            forall|key: Seq<char>| #[trigger]
                with_key(rest@, key) + with_key(sorted@, key) == with_key(all, key),
        decreases rest.len(),
    {
        let ghost rest0 = rest@;
        let ghost sorted0 = sorted@;
        let item = rest.pop().unwrap();
        let mut at: usize = 0;
        while at < sorted.len() && text_before(sorted[at].key_text(), item.key_text())
            invariant
                at <= sorted.len(),
                forall|i: int| 0 <= i < at ==> before(#[trigger] sorted@[i].key(), item.key()),
            decreases sorted.len() - at,
        {
            at = at + 1;
        }
        sorted.insert(at, item);
        proof {
            assert(rest0 =~= rest@.push(item));
            assert(sorted@ =~= sorted0.insert(at as int, item));
            lemma_insert_sorted(sorted0, at as int, item);
            assert forall|key: Seq<char>| #[trigger]
                with_key(rest@, key) + with_key(sorted@, key) == with_key(all, key) by {
                lemma_insert_with_key(sorted0, at as int, item, key);
                lemma_push_with_key(rest@, item, key);
                assert(with_key(rest0, key) + with_key(sorted0, key) == with_key(all, key));
                assert(with_key(rest@, key) + with_key(sorted@, key) =~= with_key(rest0, key)
                    + with_key(sorted0, key));
            }
        }
    }
    proof {
        assert forall|key: Seq<char>| #[trigger] with_key(sorted@, key) == with_key(all, key) by {
            assert(with_key(rest@, key) + with_key(sorted@, key) == with_key(all, key));
            reveal(Seq::filter);
            assert(with_key(rest@, key) =~= Seq::<T>::empty());
            assert(with_key(rest@, key) + with_key(sorted@, key) =~= with_key(sorted@, key));
        }
    }
    sorted
}

/// Being the text `t`.
pub open spec fn is_the_text(t: Seq<char>) -> spec_fn(Seq<char>) -> bool {
    |x: Seq<char>| x == t
}

/// `sorted` holds the texts `from` in their order, each as often as `from` does.
pub open spec fn are_sorted_texts(from: Seq<Seq<char>>, sorted: Seq<String>) -> bool {
    &&& is_sorted(sorted)
    &&& forall|t: Seq<char>| #[trigger]
        texts_of(sorted).filter(is_the_text(t)) == from.filter(is_the_text(t))
}

/// The texts of `list`, sorted.
pub fn sort_texts(list: Vec<String>) -> (r: Vec<String>)
    ensures
        are_sorted_texts(texts_of(list@), r@),
{
    let ghost all = list@;
    let sorted = sort_by_key(list);
    proof {
        assert forall|t: Seq<char>| #[trigger]
            texts_of(sorted@).filter(is_the_text(t)) == texts_of(all).filter(is_the_text(t)) by {
            lemma_texts_with_key(sorted@, t);
            lemma_texts_with_key(all, t);
            assert(with_key(sorted@, t) == with_key(all, t));
        }
    }
    sorted
}

/// The strings with a key are those whose text is the key.
proof fn lemma_texts_with_key(list: Seq<String>, t: Seq<char>)
    ensures
        texts_of(list).filter(is_the_text(t)) == texts_of(with_key(list, t)),
    decreases list.len(),
{
    reveal(Seq::filter);
    if list.len() > 0 {
        lemma_texts_with_key(list.drop_last(), t);
        assert(texts_of(list).drop_last() =~= texts_of(list.drop_last()));
    }
    assert(texts_of(list).filter(is_the_text(t)) =~= texts_of(with_key(list, t)));
}

/// Putting an item behind all smaller keys and in front of all others keeps the order.
proof fn lemma_insert_sorted<T: Keyed>(s: Seq<T>, at: int, item: T)
    requires
        is_sorted(s),
        0 <= at <= s.len(),
        forall|i: int| 0 <= i < at ==> before(#[trigger] s[i].key(), item.key()),
        at < s.len() ==> !before(s[at].key(), item.key()),
    ensures
        is_sorted(s.insert(at, item)),
{
    let t = s.insert(at, item);
    assert forall|i: int, j: int| 0 <= i < j < t.len() implies !before(
        #[trigger] t[j].key(),
        #[trigger] t[i].key(),
    ) by {
        if j < at {
            assert(t[i] == s[i] && t[j] == s[j]);
        } else if j == at {
            assert(t[i] == s[i] && t[j] == item);
            lemma_before_asymmetric(s[i].key(), item.key());
        } else if i < at {
            assert(t[i] == s[i] && t[j] == s[j - 1]);
        } else if i == at {
            assert(t[i] == item && t[j] == s[j - 1]);
            if j - 1 > at {
                assert(!before(s[j - 1].key(), s[at].key()));
                lemma_not_before_transitive(s[j - 1].key(), s[at].key(), item.key());
            }
        } else {
            assert(t[i] == s[i - 1] && t[j] == s[j - 1]);
        }
    }
}

/// What an insertion does to the items with one key.
proof fn lemma_insert_with_key<T: Keyed>(s: Seq<T>, at: int, item: T, key: Seq<char>)
    requires
        0 <= at <= s.len(),
        forall|i: int| 0 <= i < at ==> before(#[trigger] s[i].key(), item.key()),
    ensures
        with_key(s.insert(at, item), key) == if item.key() == key {
            seq![item] + with_key(s, key)
        } else {
            with_key(s, key)
        },
{
    let pred = has_key::<T>(key);
    let head = s.subrange(0, at);
    let tail = s.subrange(at, s.len() as int);
    assert(s.insert(at, item) =~= head + (seq![item] + tail));
    assert(s =~= head + tail);
    Seq::filter_distributes_over_add(head, tail, pred);
    Seq::filter_distributes_over_add(head, seq![item] + tail, pred);
    Seq::filter_distributes_over_add(seq![item], tail, pred);
    lemma_push_with_key(Seq::<T>::empty(), item, key);
    assert(Seq::<T>::empty().push(item) =~= seq![item]);
    reveal(Seq::filter);
    assert(with_key(Seq::<T>::empty(), key) =~= Seq::<T>::empty());
    if item.key() == key {
        assert forall|i: int| 0 <= i < head.len() implies !pred(#[trigger] head[i]) by {
            assert(head[i] == s[i]);
            lemma_before_asymmetric(s[i].key(), item.key());
        }
        head.lemma_all_neg_filter_empty(pred);
        assert(head.filter(pred) =~= Seq::<T>::empty());
        assert(with_key(s.insert(at, item), key) =~= seq![item] + with_key(s, key));
    } else {
        assert(with_key(s.insert(at, item), key) =~= with_key(s, key));
    }
}

/// What appending an item does to the items with one key.
proof fn lemma_push_with_key<T: Keyed>(s: Seq<T>, item: T, key: Seq<char>)
    ensures
        with_key(s.push(item), key) == if item.key() == key {
            with_key(s, key).push(item)
        } else {
            with_key(s, key)
        },
{
    reveal(Seq::filter);
    assert(s.push(item).drop_last() =~= s);
}

/// Of two texts at most one stands before the other, and none before itself.
pub proof fn lemma_before_asymmetric(a: Seq<char>, b: Seq<char>)
    ensures
        before(a, b) ==> !before(b, a) && a != b,
    decreases a.len(),
{
    if a.len() > 0 && b.len() > 0 {
        lemma_before_asymmetric(a.drop_first(), b.drop_first());
    }
}

/// Two texts neither of which stands before the other are the same.
pub proof fn lemma_before_total(a: Seq<char>, b: Seq<char>)
    ensures
        !before(a, b) && !before(b, a) ==> a == b,
    decreases a.len(),
{
    if a.len() > 0 && b.len() > 0 {
        lemma_before_total(a.drop_first(), b.drop_first());
        if a[0] == b[0] && !before(a, b) && !before(b, a) {
            assert(a =~= seq![a[0]] + a.drop_first());
            assert(b =~= seq![b[0]] + b.drop_first());
        }
    } else if !before(a, b) && !before(b, a) {
        assert(a =~= b);
    }
}

/// "Not before" carries over.
pub proof fn lemma_not_before_transitive(a: Seq<char>, b: Seq<char>, c: Seq<char>)
    requires
        !before(a, b),
        !before(b, c),
    ensures
        !before(a, c),
    decreases a.len(),
{
    if a.len() > 0 && b.len() > 0 && c.len() > 0 {
        if a[0] == b[0] && b[0] == c[0] {
            lemma_not_before_transitive(a.drop_first(), b.drop_first(), c.drop_first());
        }
    }
}

/// Sorting texts pins the result down: two sorted lists that hold every text equally often
/// are the same list of texts.
pub proof fn sorted_texts_are_unique(a: Seq<String>, b: Seq<String>)
    requires
        is_sorted(a),
        is_sorted(b),
        forall|key: Seq<char>| #[trigger] with_key(a, key) == with_key(b, key),
    ensures
        a =~= b,
    decreases a.len(),
{
    reveal(Seq::filter);
    if a.len() == 0 {
        if b.len() > 0 {
            let k = b.last().key();
            assert(with_key(b, k).len() > 0);
            assert(with_key(a, k).len() == 0);
        }
    } else if b.len() == 0 {
        let k = a.last().key();
        assert(with_key(a, k).len() > 0);
        assert(with_key(b, k).len() == 0);
    } else {
        let ka = a.last().key();
        let kb = b.last().key();
        if ka != kb {
            lemma_last_key_largest(a, b);
            lemma_last_key_largest(b, a);
            lemma_before_total(ka, kb);
        }
        assert(with_key(a, ka).last() == a.last());
        assert(with_key(b, ka).last() == b.last());
        assert forall|key: Seq<char>| #[trigger]
            with_key(a.drop_last(), key) == with_key(b.drop_last(), key) by {
            lemma_push_with_key(a.drop_last(), a.last(), key);
            lemma_push_with_key(b.drop_last(), b.last(), key);
            assert(a.drop_last().push(a.last()) =~= a);
            assert(b.drop_last().push(b.last()) =~= b);
            assert(with_key(a, key) == with_key(b, key));
            if key == ka {
                assert(with_key(a, key).drop_last() =~= with_key(a.drop_last(), key));
                assert(with_key(b, key).drop_last() =~= with_key(b.drop_last(), key));
            }
        }
        sorted_texts_are_unique(a.drop_last(), b.drop_last());
        assert(a =~= a.drop_last().push(a.last()));
        assert(b =~= b.drop_last().push(b.last()));
    }
}

/// The last key of a sorted list does not stand before a key that the list shares.
proof fn lemma_last_key_largest(a: Seq<String>, b: Seq<String>)
    requires
        a.len() > 0,
        b.len() > 0,
        is_sorted(a),
        forall|key: Seq<char>| #[trigger] with_key(a, key) == with_key(b, key),
    ensures
        !before(a.last().key(), b.last().key()),
{
    reveal(Seq::filter);
    let kb = b.last().key();
    let pred = has_key::<String>(kb);
    assert(with_key(b, kb).len() > 0);
    assert(with_key(a, kb).len() > 0);
    let x = a.filter(pred)[0];
    a.lemma_filter_pred(pred, 0);
    assert(a.filter(pred).contains(x));
    a.lemma_filter_contains_rev(pred, x);
    let i = choose|i: int| 0 <= i < a.len() && a[i] == x;
    if i < a.len() - 1 {
        assert(!before(a[a.len() - 1].key(), a[i].key()));
    } else {
        lemma_before_asymmetric(kb, kb);
    }
}

} // verus!
