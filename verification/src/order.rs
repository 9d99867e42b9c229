//! The order of texts (lexicographic by code point, which is the byte order
//! of their UTF-8 encodings) and sorting by it.
use vstd::prelude::*;
use vstd::seq_lib::group_to_multiset_ensures;

use crate::text::views;

verus! {

/// `a` comes strictly before `b`: at the first position where they differ
/// `a` has the smaller code point, or `a` is a proper prefix of `b`.
pub open spec fn text_lt(a: Seq<char>, b: Seq<char>) -> bool
    decreases a.len(),
{
    if a.len() == 0 {
        b.len() > 0
    } else if b.len() == 0 {
        false
    } else if a[0] != b[0] {
        (a[0] as u32) < (b[0] as u32)
    } else {
        text_lt(a.drop_first(), b.drop_first())
    }
}

/// `a` comes before `b` or equals it.
pub open spec fn text_le(a: Seq<char>, b: Seq<char>) -> bool {
    a == b || text_lt(a, b)
}

/// The entries are in ascending text order.
pub open spec fn texts_sorted(s: Seq<Seq<char>>) -> bool {
    forall|i: int, j: int| 0 <= i < j < s.len() ==> text_le(s[i], s[j])
}

/// `x` inserted into `s` before the first entry that it does not exceed.
pub open spec fn insert_text(x: Seq<char>, s: Seq<Seq<char>>) -> Seq<Seq<char>>
    decreases s.len(),
{
    if s.len() == 0 {
        seq![x]
    } else if text_le(x, s[0]) {
        seq![x] + s
    } else {
        seq![s[0]] + insert_text(x, s.drop_first())
    }
}

/// The entries in ascending text order.
pub open spec fn sort_texts(s: Seq<Seq<char>>) -> Seq<Seq<char>>
    decreases s.len(),
{
    if s.len() == 0 {
        s
    } else {
        insert_text(s.last(), sort_texts(s.drop_last()))
    }
}

proof fn lemma_char_eq(a: char, b: char)
    ensures
        (a as u32) == (b as u32) ==> a == b,
{
}

/// Of two different texts, one comes strictly before the other.
pub proof fn lemma_text_total(a: Seq<char>, b: Seq<char>)
    ensures
        a == b || text_lt(a, b) || text_lt(b, a),
    decreases a.len(),
{
    if a.len() == 0 {
        if b.len() == 0 {
            assert(a =~= b);
        }
    } else if b.len() == 0 {
    } else if a[0] != b[0] {
        lemma_char_eq(a[0], b[0]);
    } else {
        lemma_text_total(a.drop_first(), b.drop_first());
        if a.drop_first() == b.drop_first() {
            assert(a =~= seq![a[0]] + a.drop_first());
            assert(b =~= seq![b[0]] + b.drop_first());
        }
    }
}

/// No text comes strictly before itself, and two texts are not each
/// strictly before the other.
pub proof fn lemma_text_lt_asym(a: Seq<char>, b: Seq<char>)
    ensures
        text_lt(a, b) ==> !text_lt(b, a) && a != b,
    decreases a.len(),
{
    if a.len() == 0 || b.len() == 0 {
    } else if a[0] != b[0] {
    } else {
        lemma_text_lt_asym(a.drop_first(), b.drop_first());
    }
}

/// The strict order is transitive.
pub proof fn lemma_text_lt_trans(a: Seq<char>, b: Seq<char>, c: Seq<char>)
    requires
        text_lt(a, b),
        text_lt(b, c),
    ensures
        text_lt(a, c),
    decreases a.len(),
{
    if a.len() == 0 {
    } else if a[0] != b[0] {
        if b[0] != c[0] {
            lemma_char_eq(a[0], c[0]);
        }
    } else if b[0] != c[0] {
    } else {
        lemma_text_lt_trans(a.drop_first(), b.drop_first(), c.drop_first());
    }
}

/// The order is transitive.
pub proof fn lemma_text_le_trans(a: Seq<char>, b: Seq<char>, c: Seq<char>)
    requires
        text_le(a, b),
        text_le(b, c),
    ensures
        text_le(a, c),
{
    if a != b && b != c {
        lemma_text_lt_trans(a, b, c);
    }
}

/// Inserting keeps the entries, adds `x`, and keeps them sorted.
pub proof fn lemma_insert_text(x: Seq<char>, s: Seq<Seq<char>>)
    ensures
        insert_text(x, s).to_multiset() =~= s.to_multiset().insert(x),
        insert_text(x, s).len() == s.len() + 1,
        texts_sorted(s) ==> texts_sorted(insert_text(x, s)),
    decreases s.len(),
{
    broadcast use group_to_multiset_ensures;

    if s.len() == 0 {
        assert(seq![x] =~= Seq::<Seq<char>>::empty().push(x));
    } else if text_le(x, s[0]) {
        vstd::seq_lib::lemma_multiset_commutative(seq![x], s);
        assert(seq![x] =~= Seq::<Seq<char>>::empty().push(x));
        if texts_sorted(s) {
            let r = seq![x] + s;
            assert forall|i: int, j: int| 0 <= i < j < r.len() implies text_le(r[i], r[j]) by {
                if i == 0 && j > 1 {
                    lemma_text_le_trans(x, s[0], s[j - 1]);
                }
            }
        }
    } else {
        let rest = s.drop_first();
        lemma_insert_text(x, rest);
        assert(s =~= seq![s[0]] + rest);
        vstd::seq_lib::lemma_multiset_commutative(seq![s[0]], rest);
        vstd::seq_lib::lemma_multiset_commutative(seq![s[0]], insert_text(x, rest));
        assert(seq![s[0]] =~= Seq::<Seq<char>>::empty().push(s[0]));
        if texts_sorted(s) {
            lemma_text_total(x, s[0]);
            let ins = insert_text(x, rest);
            let r = seq![s[0]] + ins;
            assert(texts_sorted(rest)) by {
                assert forall|i: int, j: int| 0 <= i < j < rest.len() implies text_le(
                    rest[i],
                    rest[j],
                ) by {
                    assert(rest[i] == s[i + 1] && rest[j] == s[j + 1]);
                }
            }
            assert forall|i: int, j: int| 0 <= i < j < r.len() implies text_le(r[i], r[j]) by {
                if i == 0 {
                    let y = ins[j - 1];
                    assert(ins.contains(y));
                    assert(ins.to_multiset().count(y) > 0);
                    if y != x {
                        assert(rest.to_multiset().count(y) > 0);
                        assert(rest.contains(y));
                        let k = choose|k: int| 0 <= k < rest.len() && rest[k] == y;
                        assert(s[k + 1] == y);
                    }
                }
            }
        }
    }
}

/// Sorting keeps the entries and puts them in ascending order.
pub proof fn lemma_sort_texts(s: Seq<Seq<char>>)
    ensures
        sort_texts(s).to_multiset() =~= s.to_multiset(),
        sort_texts(s).len() == s.len(),
        texts_sorted(sort_texts(s)),
    decreases s.len(),
{
    broadcast use group_to_multiset_ensures;

    if s.len() > 0 {
        lemma_sort_texts(s.drop_last());
        lemma_insert_text(s.last(), sort_texts(s.drop_last()));
        assert(s =~= s.drop_last().push(s.last()));
    }
}

/// Two texts that each come before or equal the other are equal.
pub proof fn lemma_text_le_antisym(a: Seq<char>, b: Seq<char>)
    requires
        text_le(a, b),
        text_le(b, a),
    ensures
        a == b,
{
    lemma_text_lt_asym(a, b);
}

/// Inserting a text that no entry of a sorted sequence exceeds appends it.
proof fn lemma_insert_text_last(x: Seq<char>, s: Seq<Seq<char>>)
    requires
        texts_sorted(s),
        forall|j: int| 0 <= j < s.len() ==> text_le(#[trigger] s[j], x),
    ensures
        insert_text(x, s) == s.push(x),
    decreases s.len(),
{
    if s.len() == 0 {
        assert(seq![x] =~= s.push(x));
    } else if text_le(x, s[0]) {
        lemma_text_le_antisym(x, s[0]);
        assert forall|j: int| 0 <= j < s.len() implies #[trigger] s[j] == x by {
            if j > 0 {
                assert(text_le(s[0], s[j]));
                lemma_text_le_antisym(x, s[j]);
            }
        }
        assert(seq![x] + s =~= s.push(x));
    } else {
        let rest = s.drop_first();
        assert forall|i: int, j: int| 0 <= i < j < rest.len() implies text_le(rest[i], rest[j]) by {
            assert(rest[i] == s[i + 1] && rest[j] == s[j + 1]);
        }
        assert forall|j: int| 0 <= j < rest.len() implies text_le(#[trigger] rest[j], x) by {
            assert(rest[j] == s[j + 1]);
        }
        lemma_insert_text_last(x, rest);
        assert(seq![s[0]] + rest.push(x) =~= s.push(x));
    }
}

/// Sorting entries that are already in order leaves them as they are.
pub proof fn lemma_sort_sorted(s: Seq<Seq<char>>)
    requires
        texts_sorted(s),
    ensures
        sort_texts(s) == s,
    decreases s.len(),
{
    if s.len() > 0 {
        let init = s.drop_last();
        assert forall|i: int, j: int| 0 <= i < j < init.len() implies text_le(init[i], init[j]) by {
            assert(init[i] == s[i] && init[j] == s[j]);
        }
        lemma_sort_sorted(init);
        assert forall|j: int| 0 <= j < init.len() implies text_le(#[trigger] init[j], s.last()) by {
            assert(init[j] == s[j]);
        }
        lemma_insert_text_last(s.last(), init);
        assert(init.push(s.last()) =~= s);
    }
}

/// Inserting at the first position whose entry `x` does not exceed.
proof fn lemma_insert_text_at(x: Seq<char>, s: Seq<Seq<char>>, k: int)
    requires
        0 <= k <= s.len(),
        forall|j: int| 0 <= j < k ==> !text_le(x, #[trigger] s[j]),
        k == s.len() || text_le(x, s[k]),
    ensures
        insert_text(x, s) == s.insert(k, x),
    decreases s.len(),
{
    if s.len() == 0 {
        assert(s.insert(k, x) =~= seq![x]);
    } else if k == 0 {
        assert(s.insert(k, x) =~= seq![x] + s);
    } else {
        let rest = s.drop_first();
        assert forall|j: int| 0 <= j < k - 1 implies !text_le(x, #[trigger] rest[j]) by {
            assert(rest[j] == s[j + 1]);
        }
        lemma_insert_text_at(x, rest, k - 1);
        assert(s.insert(k, x) =~= seq![s[0]] + rest.insert(k - 1, x));
    }
}

/// Whether `a` comes before `b` or equals it.
pub fn text_le_exec(a: &Vec<char>, b: &Vec<char>) -> (r: bool)
    ensures
        r == text_le(a@, b@),
{
    let mut i: usize = 0;
    assert(a@.skip(0) =~= a@);
    assert(b@.skip(0) =~= b@);
    while i < a.len() && i < b.len() && a[i] == b[i]
        invariant
            i <= a.len(),
            i <= b.len(),
            text_lt(a@, b@) == text_lt(a@.skip(i as int), b@.skip(i as int)),
            (a@ == b@) == (a@.skip(i as int) == b@.skip(i as int)),
        decreases a.len() - i,
    {
        let ghost sa = a@.skip(i as int);
        let ghost sb = b@.skip(i as int);
        assert(sa.drop_first() =~= a@.skip(i + 1));
        assert(sb.drop_first() =~= b@.skip(i + 1));
        assert(sa =~= seq![sa[0]] + sa.drop_first());
        assert(sb =~= seq![sb[0]] + sb.drop_first());
        i = i + 1;
    }
    let ghost sa = a@.skip(i as int);
    let ghost sb = b@.skip(i as int);
    if i == a.len() {
        assert(sa.len() == 0);
        if i == b.len() {
            assert(sa =~= sb);
        }
        true
    } else if i == b.len() {
        assert(sb.len() == 0);
        false
    } else {
        assert(sa[0] == a@[i as int] && sb[0] == b@[i as int]);
        assert(sa != sb);
        (a[i] as u32) < (b[i] as u32)
    }
}

/// The entries in ascending text order, as `sort_texts` says.
pub fn sort_chars(entries: &Vec<Vec<char>>) -> (r: Vec<Vec<char>>)
    ensures
        views(r@) == sort_texts(views(entries@)),
{
    let mut r: Vec<Vec<char>> = Vec::new();
    let mut i: usize = 0;
    assert(views(entries@).take(0) =~= Seq::<Seq<char>>::empty());
    assert(views(r@) =~= Seq::<Seq<char>>::empty());
    while i < entries.len()
        invariant
            i <= entries.len(),
            views(r@) == sort_texts(views(entries@).take(i as int)),
        decreases entries.len() - i,
    {
        let x = entries[i].clone();
        let mut k: usize = 0;
        while k < r.len() && !text_le_exec(&x, &r[k])
            invariant
                k <= r.len(),
                forall|j: int| 0 <= j < k ==> !text_le(x@, #[trigger] views(r@)[j]),
            decreases r.len() - k,
        {
            k = k + 1;
        }
        proof {
            lemma_insert_text_at(x@, views(r@), k as int);
            let prefix = views(entries@).take(i + 1);
            assert(prefix.drop_last() =~= views(entries@).take(i as int));
            assert(prefix.last() == x@);
        }
        let ghost before = r@;
        r.insert(k, x);
        assert(views(r@) =~= views(before).insert(k as int, x@));
        i = i + 1;
    }
    assert(views(entries@).take(entries.len() as int) =~= views(entries@));
    r
}

} // verus!
