//! Ordering values by a pair of text fields, and a stable sort in that order.
use vstd::prelude::*;
use crate::text::{
    lemma_text_lt_irreflexive, lemma_text_lt_total, lemma_text_lt_transitive, text_lt, TextOrder,
};

verus! {

/// A value ordered by a primary text field, ties broken by a secondary one
/// (both compared as `str` compares).
pub trait SortKey {
    /// The (primary, secondary) fields that order the value.
    spec fn sort_key(&self) -> (Seq<char>, Seq<char>);

    fn compare_key(&self, other: &Self) -> (r: TextOrder)
        ensures
            r == key_order(self.sort_key(), other.sort_key()),
    ;
}

/// Strict order of keys: by the primary field, then by the secondary one.
pub open spec fn key_lt(a: (Seq<char>, Seq<char>), b: (Seq<char>, Seq<char>)) -> bool {
    text_lt(a.0, b.0) || (a.0 == b.0 && text_lt(a.1, b.1))
}

pub open spec fn key_order(a: (Seq<char>, Seq<char>), b: (Seq<char>, Seq<char>)) -> TextOrder {
    if a == b {
        TextOrder::Equal
    } else if key_lt(a, b) {
        TextOrder::Less
    } else {
        TextOrder::Greater
    }
}

/// No value is followed by one with a smaller key.
pub open spec fn sorted_by_key<T: SortKey>(s: Seq<T>) -> bool {
    forall|i: int, j: int|
        0 <= i < j < s.len() ==> !key_lt(#[trigger] s[j].sort_key(), #[trigger] s[i].sort_key())
}

/// The values of `s` whose key is `k`, in their order in `s`.
pub open spec fn with_key<T: SortKey>(s: Seq<T>, k: (Seq<char>, Seq<char>)) -> Seq<T>
    decreases s.len(),
{
    if s.len() == 0 {
        Seq::<T>::empty()
    } else {
        let r = with_key(s.drop_last(), k);
        if s.last().sort_key() == k {
            r.push(s.last())
        } else {
            r
        }
    }
}

/// `out` holds the values of `items` ordered by key, values with equal keys
/// keeping their relative order: the result of a stable sort.
pub open spec fn stable_sort_of<T: SortKey>(items: Seq<T>, out: Seq<T>) -> bool {
    &&& out.len() == items.len()
    &&& sorted_by_key(out)
    &&& forall|k: (Seq<char>, Seq<char>)| #[trigger] with_key(out, k) == with_key(items, k)
    &&& out.to_multiset() == items.to_multiset()
}

pub proof fn lemma_key_lt_irreflexive(a: (Seq<char>, Seq<char>))
    ensures
        !key_lt(a, a),
{
    lemma_text_lt_irreflexive(a.0);
    lemma_text_lt_irreflexive(a.1);
}

pub proof fn lemma_key_lt_transitive(
    a: (Seq<char>, Seq<char>),
    b: (Seq<char>, Seq<char>),
    c: (Seq<char>, Seq<char>),
)
    requires
        key_lt(a, b),
        key_lt(b, c),
    ensures
        key_lt(a, c),
{
    if text_lt(a.0, b.0) && text_lt(b.0, c.0) {
        lemma_text_lt_transitive(a.0, b.0, c.0);
    } else if text_lt(a.1, b.1) && text_lt(b.1, c.1) && a.0 == b.0 && b.0 == c.0 {
        lemma_text_lt_transitive(a.1, b.1, c.1);
    }
}

/// Of two different keys exactly one is smaller.
pub proof fn lemma_key_lt_total(a: (Seq<char>, Seq<char>), b: (Seq<char>, Seq<char>))
    ensures
        a != b ==> (key_lt(a, b) || key_lt(b, a)),
        !(key_lt(a, b) && key_lt(b, a)),
{
    lemma_text_lt_total(a.0, b.0);
    lemma_text_lt_total(a.1, b.1);
    lemma_text_lt_irreflexive(a.0);
    lemma_text_lt_irreflexive(b.0);
}

/// "Not smaller" is transitive.
pub proof fn lemma_key_le_transitive(
    a: (Seq<char>, Seq<char>),
    b: (Seq<char>, Seq<char>),
    c: (Seq<char>, Seq<char>),
)
    requires
        !key_lt(b, a),
        !key_lt(c, b),
    ensures
        !key_lt(c, a),
{
    lemma_key_lt_total(a, b);
    lemma_key_lt_total(b, c);
    lemma_key_lt_total(a, c);
    if key_lt(c, a) {
        if a != b && b != c {
            lemma_key_lt_transitive(a, b, c);
        }
    }
}

pub proof fn lemma_with_key_add<T: SortKey>(a: Seq<T>, b: Seq<T>, k: (Seq<char>, Seq<char>))
    ensures
        with_key(a + b, k) == with_key(a, k) + with_key(b, k),
    decreases b.len(),
{
    if b.len() == 0 {
        assert(a + b =~= a);
        assert(with_key(a, k) + with_key(b, k) =~= with_key(a, k));
    } else {
        lemma_with_key_add(a, b.drop_last(), k);
        assert((a + b).drop_last() =~= a + b.drop_last());
        assert((a + b).last() == b.last());
        if b.last().sort_key() == k {
            assert(with_key(a + b, k) =~= with_key(a, k) + with_key(b, k));
        } else {
            assert(with_key(a + b, k) =~= with_key(a, k) + with_key(b, k));
        }
    }
}

pub proof fn lemma_with_key_absent<T: SortKey>(s: Seq<T>, k: (Seq<char>, Seq<char>))
    requires
        forall|i: int| 0 <= i < s.len() ==> (#[trigger] s[i]).sort_key() != k,
    ensures
        with_key(s, k) == Seq::<T>::empty(),
    decreases s.len(),
{
    if s.len() > 0 {
        assert forall|i: int| 0 <= i < s.drop_last().len() implies (
        #[trigger] s.drop_last()[i]).sort_key() != k by {
            assert(s.drop_last()[i] == s[i]);
        }
        lemma_with_key_absent(s.drop_last(), k);
        assert(s.last() == s[s.len() - 1]);
    }
}

proof fn lemma_with_key_single<T: SortKey>(x: T, k: (Seq<char>, Seq<char>))
    ensures
        with_key(seq![x], k) == if x.sort_key() == k {
            seq![x]
        } else {
            Seq::<T>::empty()
        },
{
    assert(seq![x].drop_last() =~= Seq::<T>::empty());
    assert(seq![x].last() == x);
    assert(with_key(Seq::<T>::empty(), k) == Seq::<T>::empty());
    assert(Seq::<T>::empty().push(x) =~= seq![x]);
}

/// Inserting `x` into a sorted sequence just before the values with larger keys
/// keeps it sorted.
proof fn lemma_insert_sorted<T: SortKey>(s: Seq<T>, j: int, x: T)
    requires
        0 <= j <= s.len(),
        sorted_by_key(s),
        forall|m: int| 0 <= m < j ==> !key_lt(x.sort_key(), (#[trigger] s[m]).sort_key()),
        forall|m: int| j <= m < s.len() ==> key_lt(x.sort_key(), (#[trigger] s[m]).sort_key()),
    ensures
        sorted_by_key(s.insert(j, x)),
{
    let t = s.insert(j, x);
    s.insert_ensures(j, x);
    assert forall|a: int, b: int| 0 <= a < b < t.len() implies !key_lt(
        #[trigger] t[b].sort_key(),
        #[trigger] t[a].sort_key(),
    ) by {
        if b < j {
            assert(t[a] == s[a] && t[b] == s[b]);
        } else if b == j {
            assert(t[a] == s[a]);
        } else if a == j {
            assert(t[b] == s[b - 1]);
            lemma_key_lt_total(x.sort_key(), s[b - 1].sort_key());
        } else if a < j {
            assert(t[a] == s[a] && t[b] == s[b - 1]);
        } else {
            assert(t[a] == s[a - 1] && t[b] == s[b - 1]);
        }
    }
}

/// Inserting `x` just before the values with larger keys adds `x` at the end
/// of its key group and leaves every other key group as it was.
proof fn lemma_insert_groups<T: SortKey>(s: Seq<T>, j: int, x: T, k: (Seq<char>, Seq<char>))
    requires
        0 <= j <= s.len(),
        forall|m: int| j <= m < s.len() ==> key_lt(x.sort_key(), (#[trigger] s[m]).sort_key()),
    ensures
        with_key(s.insert(j, x), k) == if x.sort_key() == k {
            with_key(s, k).push(x)
        } else {
            with_key(s, k)
        },
{
    let t = s.insert(j, x);
    let pre = s.subrange(0, j);
    let post = s.subrange(j, s.len() as int);
    assert(s =~= pre + post);
    assert(t =~= pre + seq![x] + post);
    lemma_with_key_add(pre + seq![x], post, k);
    lemma_with_key_add(pre, seq![x], k);
    lemma_with_key_add(pre, post, k);
    lemma_with_key_single(x, k);
    if x.sort_key() == k {
        assert forall|i: int| 0 <= i < post.len() implies (#[trigger] post[i]).sort_key() != k by {
            assert(post[i] == s[j + i]);
            lemma_key_lt_irreflexive(k);
        }
        lemma_with_key_absent(post, k);
        assert(with_key(t, k) =~= with_key(s, k).push(x));
    } else {
        assert(with_key(t, k) =~= with_key(s, k));
    }
}

proof fn lemma_with_key_member<T: SortKey>(s: Seq<T>, k: (Seq<char>, Seq<char>))
    requires
        with_key(s, k).len() > 0,
    ensures
        exists|i: int| 0 <= i < s.len() && (#[trigger] s[i]).sort_key() == k,
    decreases s.len(),
{
    if s.len() > 0 {
        if s.last().sort_key() == k {
            assert(s[s.len() - 1].sort_key() == k);
        } else {
            lemma_with_key_member(s.drop_last(), k);
            let i = choose|i: int| 0 <= i < s.drop_last().len() && (#[trigger] s.drop_last()[i]).sort_key() == k;
            assert(s[i] == s.drop_last()[i]);
        }
    }
}

proof fn lemma_sorted_drop_last<T: SortKey>(s: Seq<T>)
    requires
        sorted_by_key(s),
        s.len() > 0,
    ensures
        sorted_by_key(s.drop_last()),
{
    let t = s.drop_last();
    assert forall|i: int, j: int| 0 <= i < j < t.len() implies !key_lt(
        #[trigger] t[j].sort_key(),
        #[trigger] t[i].sort_key(),
    ) by {
        assert(t[i] == s[i] && t[j] == s[j]);
    }
}

/// A stable sort has exactly one result: two sequences that both list the
/// values of `items` by key, equal keys in their order in `items`, are equal.
pub proof fn law_stable_sort_is_unique<T: SortKey>(items: Seq<T>, a: Seq<T>, b: Seq<T>)
    requires
        stable_sort_of(items, a),
        stable_sort_of(items, b),
    ensures
        a == b,
{
    assert forall|k: (Seq<char>, Seq<char>)| #[trigger] with_key(a, k) == with_key(b, k) by {
        assert(with_key(a, k) == with_key(items, k));
        assert(with_key(b, k) == with_key(items, k));
    }
    lemma_sorted_unique(a, b);
}

proof fn lemma_sorted_unique<T: SortKey>(a: Seq<T>, b: Seq<T>)
    requires
        a.len() == b.len(),
        sorted_by_key(a),
        sorted_by_key(b),
        forall|k: (Seq<char>, Seq<char>)| #[trigger] with_key(a, k) == with_key(b, k),
    ensures
        a == b,
    decreases a.len(),
{
    if a.len() == 0 {
        assert(a =~= b);
    } else {
        let ka = a.last().sort_key();
        let kb = b.last().sort_key();
        assert(with_key(a, ka).len() > 0);
        assert(with_key(b, kb).len() > 0);
        assert(with_key(b, ka) == with_key(a, ka));
        assert(with_key(a, kb) == with_key(b, kb));
        lemma_with_key_member(b, ka);
        lemma_with_key_member(a, kb);
        let i = choose|i: int| 0 <= i < b.len() && (#[trigger] b[i]).sort_key() == ka;
        let j = choose|j: int| 0 <= j < a.len() && (#[trigger] a[j]).sort_key() == kb;
        if i < b.len() - 1 {
            assert(!key_lt(b[b.len() - 1].sort_key(), b[i].sort_key()));
        }
        if j < a.len() - 1 {
            assert(!key_lt(a[a.len() - 1].sort_key(), a[j].sort_key()));
        }
        lemma_key_lt_total(ka, kb);
        assert(ka == kb);
        assert(with_key(a, ka).last() == a.last());
        assert(with_key(b, ka).last() == b.last());
        assert(a.last() == b.last());
        let ap = a.drop_last();
        let bp = b.drop_last();
        assert forall|k: (Seq<char>, Seq<char>)| #[trigger] with_key(ap, k) == with_key(bp, k) by {
            assert(with_key(a, k) == with_key(b, k));
            if k == ka {
                assert(with_key(ap, k) =~= with_key(a, k).drop_last());
                assert(with_key(bp, k) =~= with_key(b, k).drop_last());
            }
        }
        lemma_sorted_drop_last(a);
        lemma_sorted_drop_last(b);
        lemma_sorted_unique(ap, bp);
        assert(a =~= ap.push(a.last()));
        assert(b =~= bp.push(b.last()));
    }
}

/// Sorts `items` by key, keeping the relative order of values with equal keys.
pub fn sort_stable<T: SortKey>(items: Vec<T>) -> (out: Vec<T>)
    ensures
        stable_sort_of(items@, out@),
{
    let ghost input = items@;
    let mut out: Vec<T> = Vec::new();
    assert(out@ =~= input.take(0));
    for x in it: items.into_iter()
        invariant
            it.seq() == input,
            out.len() == it.index(),
            sorted_by_key(out@),
            forall|k: (Seq<char>, Seq<char>)| #[trigger]
                with_key(out@, k) == with_key(input.take(it.index() as int), k),
            out@.to_multiset() == input.take(it.index() as int).to_multiset(),
    {
        let ghost before = input.take(it.index() as int);
        let mut j = out.len();
        let mut placed = false;
        while j > 0 && !placed
            invariant
                j <= out.len(),
                sorted_by_key(out@),
                forall|m: int|
                    j <= m < out.len() ==> key_lt(x.sort_key(), (#[trigger] out@[m]).sort_key()),
                placed ==> j > 0 && !key_lt(x.sort_key(), out@[j - 1].sort_key()),
            decreases j * 2 + if placed { 0int } else { 1int },
        {
            let o = out[j - 1].compare_key(&x);
            proof {
                lemma_key_lt_total(out@[j - 1].sort_key(), x.sort_key());
                lemma_key_lt_irreflexive(x.sort_key());
            }
            if o == TextOrder::Greater {
                j = j - 1;
            } else {
                placed = true;
            }
        }
        proof {
            assert forall|m: int| 0 <= m < j implies !key_lt(
                x.sort_key(),
                (#[trigger] out@[m]).sort_key(),
            ) by {
                if m < j - 1 {
                    lemma_key_le_transitive(out@[m].sort_key(), out@[j - 1].sort_key(), x.sort_key());
                }
            }
            lemma_insert_sorted(out@, j as int, x);
            assert forall|k: (Seq<char>, Seq<char>)| #[trigger]
                with_key(out@.insert(j as int, x), k) == if x.sort_key() == k {
                    with_key(out@, k).push(x)
                } else {
                    with_key(out@, k)
                } by {
                lemma_insert_groups(out@, j as int, x, k);
            }
            broadcast use vstd::seq_lib::to_multiset_insert;
            assert(input.take(it.index() + 1) =~= before.push(x));
            assert forall|k: (Seq<char>, Seq<char>)| #[trigger]
                with_key(before.push(x), k) == if x.sort_key() == k {
                    with_key(before, k).push(x)
                } else {
                    with_key(before, k)
                } by {
                assert(before.push(x).drop_last() =~= before);
            }
            broadcast use vstd::seq_lib::to_multiset_build;
        }
        out.insert(j, x);
    }
    proof {
        assert(input.take(input.len() as int) =~= input);
    }
    out
}

} // verus!
