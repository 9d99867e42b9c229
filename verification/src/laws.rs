//! Properties that relate the functions of the library to each other, or
//! that hold of every input.
use vstd::prelude::*;

use crate::arrays::{
    arranged, index_range, array_delim, array_entries, array_text, entries_where, lemma_delim_view, NC_ARRAY_DELIM,
};
use crate::functions::{
    all_digits, decimal_text, digit_char, digits_value, is_digit, stamp_value, unsigned_digits,
    unsigned_numeral, valid_reading, ClockReading,
};
use crate::encryption::{pkcs7_padded, pkcs7_unpadded};
use crate::nstring::{eval_safe_char, text_between};
use crate::order::{lemma_sort_sorted, lemma_sort_texts, sort_texts, text_lt, texts_sorted};
use crate::text::{
    borderless, contains_text, join_text, lemma_join_char_pieces, lemma_join_push,
    lemma_join_split, lemma_split_join, lemma_split_len, lemma_split_pieces_free,
    lemma_match_from, lemma_match_from_at, lemma_split_pieces_within, occurs_at, split_text,
};

verus! {

/// No proper non-empty prefix of the array delimiter is also a suffix of it.
pub proof fn lemma_delim_borderless()
    ensures
        borderless(array_delim()),
{
    let d = array_delim();
    assert forall|m: int| 0 < m < d.len() implies #[trigger] d.take(m) != d.skip(d.len() - m) by {
        if m != 12 {
            assert(d.take(m)[m - 1] != d.skip(d.len() - m)[m - 1]);
        } else {
            assert(d.take(m)[1] != d.skip(d.len() - m)[1]);
        }
    }
}

/// `Nstring::split` writes what `Nstring::replace` writes when it replaces
/// the pattern by the array delimiter, for a non-empty text and pattern.
pub proof fn law_split_is_replace_by_delim(s: Seq<char>, p: Seq<char>)
    requires
        s.len() > 0,
        p.len() > 0,
    ensures
        array_text(split_text(s, p)) == join_text(split_text(s, p), NC_ARRAY_DELIM@),
{
    lemma_delim_view();
    lemma_split_len(s, p);
}

/// Replacing a pattern by itself leaves the text as it is: joining the
/// pieces of a split with the pattern gives back the text.
pub proof fn law_replace_by_itself(s: Seq<char>, p: Seq<char>)
    requires
        p.len() > 0,
    ensures
        join_text(split_text(s, p), p) == s,
{
    lemma_join_split(s, p);
}

/// The entries of an array with one more entry pushed, which holds no
/// delimiter, are the old entries followed by the new one.
pub proof fn law_push_adds_entry(a: Seq<char>, d: Seq<char>)
    requires
        !contains_text(d, array_delim()),
    ensures
        array_entries(a + array_delim() + d) == array_entries(a).push(d),
{
    let es = array_entries(a);
    lemma_delim_borderless();
    lemma_join_split(a, array_delim());
    lemma_split_len(a, array_delim());
    lemma_split_pieces_free(a, array_delim());
    lemma_join_push(es, array_delim(), d);
    let es2 = es.push(d);
    assert forall|i: int| 0 <= i < es2.len() implies !contains_text(#[trigger] es2[i], array_delim())
        by {
        if i < es.len() {
            assert(es2[i] == es[i]);
        }
    }
    lemma_split_join(es2, array_delim());
}

/// Rolling an array drops its first entry and adds the new one, which holds
/// no delimiter, at the end.
pub proof fn law_pushroll_rolls(a: Seq<char>, d: Seq<char>)
    requires
        !contains_text(d, array_delim()),
    ensures
        array_entries(
            (a + array_delim() + d).skip(
                (array_entries(a)[0].len() + array_delim().len()) as int,
            ),
        ) == array_entries(a).drop_first().push(d),
{
    let es = array_entries(a);
    let dl = array_delim();
    lemma_delim_borderless();
    lemma_join_split(a, dl);
    lemma_split_len(a, dl);
    lemma_split_pieces_free(a, dl);
    let rest = es.drop_first();
    let w = (a + dl + d).skip((es[0].len() + dl.len()) as int);
    if es.len() == 1 {
        assert(a == es[0]);
        assert(w =~= d);
        assert(rest.push(d) =~= seq![d]);
        lemma_split_join(seq![d], dl);
        assert(join_text(seq![d], dl) == d);
    } else {
        assert(a == es[0] + dl + join_text(rest, dl));
        assert(w =~= join_text(rest, dl) + dl + d);
        lemma_join_push(rest, dl, d);
        let es2 = rest.push(d);
        assert forall|i: int| 0 <= i < es2.len() implies !contains_text(#[trigger] es2[i], dl) by {
            if i < rest.len() {
                assert(es2[i] == es[i + 1]);
            }
        }
        lemma_split_join(es2, dl);
    }
}

/// Every entry goes either to the search for `t` or to the filter of `t`,
/// never to both: together they hold each entry as often as the array does.
pub proof fn law_search_filter_partition(entries: Seq<Seq<char>>, t: Seq<char>)
    ensures
        entries_where(entries, t, true).len() + entries_where(entries, t, false).len()
            == entries.len(),
        entries_where(entries, t, true).to_multiset().add(
            entries_where(entries, t, false).to_multiset(),
        ) =~= entries.to_multiset(),
    decreases entries.len(),
{
    broadcast use vstd::seq_lib::group_to_multiset_ensures;
    broadcast use vstd::multiset::group_multiset_axioms;

    if entries.len() > 0 {
        let rest = entries.drop_last();
        law_search_filter_partition(rest, t);
        assert(entries =~= rest.push(entries.last()));
        reveal(Seq::filter);
        assert(entries_where(entries, t, true) == if contains_text(entries.last(), t) {
            entries_where(rest, t, true).push(entries.last())
        } else {
            entries_where(rest, t, true)
        });
        assert(entries_where(entries, t, false) == if !contains_text(entries.last(), t) {
            entries_where(rest, t, false).push(entries.last())
        } else {
            entries_where(rest, t, false)
        });
    } else {
        reveal(Seq::filter);
        assert(entries_where(entries, t, true) =~= Seq::<Seq<char>>::empty());
        assert(entries_where(entries, t, false) =~= Seq::<Seq<char>>::empty());
    }
}

/// The entries of a sorted non-empty array are the entries of the array in
/// ascending order: sorted, and each as often as before.
pub proof fn law_sort_entries(array: Seq<char>)
    requires
        array.len() > 0,
    ensures
        array_entries(array_text(sort_texts(array_entries(array)))) == sort_texts(
            array_entries(array),
        ),
        texts_sorted(sort_texts(array_entries(array))),
        sort_texts(array_entries(array)).to_multiset() == array_entries(array).to_multiset(),
{
    broadcast use vstd::seq_lib::group_to_multiset_ensures;

    let es = array_entries(array);
    let sorted = sort_texts(es);
    let dl = array_delim();
    lemma_delim_borderless();
    lemma_sort_texts(es);
    lemma_split_len(array, dl);
    lemma_split_pieces_free(array, dl);
    assert forall|i: int| 0 <= i < sorted.len() implies !contains_text(#[trigger] sorted[i], dl) by {
        let x = sorted[i];
        assert(sorted.contains(x));
        assert(sorted.to_multiset().count(x) > 0);
        assert(es.contains(x));
        let k = choose|k: int| 0 <= k < es.len() && es[k] == x;
        assert(!contains_text(es[k], dl));
    }
    if sorted.len() == 1 && sorted[0].len() == 0 {
        assert(es.len() == 1);
        assert(es[0] == array);
        assert(sorted.contains(sorted[0]));
        assert(sorted.to_multiset().count(sorted[0]) > 0);
        assert(es.contains(sorted[0]));
        assert(false);
    }
    lemma_split_join(sorted, dl);
}

/// Making a string safe as a key twice changes nothing more than once.
pub proof fn law_stringtoeval_idempotent(s: Seq<char>)
    ensures
        s.map_values(|c: char| eval_safe_char(c)).map_values(|c: char| eval_safe_char(c))
            == s.map_values(|c: char| eval_safe_char(c)),
{
    assert(s.map_values(|c: char| eval_safe_char(c)).map_values(|c: char| eval_safe_char(c))
        =~= s.map_values(|c: char| eval_safe_char(c)));
}

proof fn lemma_decimal_text(n: nat)
    ensures
        decimal_text(n).len() > 0,
        all_digits(decimal_text(n)),
        digits_value(decimal_text(n)) == n,
    decreases n,
{
    if n >= 10 {
        lemma_decimal_text(n / 10);
        let t = decimal_text(n);
        assert(t.drop_last() =~= decimal_text(n / 10));
        assert(is_digit(digit_char((n % 10) as int)));
        assert(t.last() == digit_char((n % 10) as int));
        assert((t.last() as u32) - 48 == n % 10);
        assert((n / 10) * 10 + n % 10 == n);
        assert(digits_value(t) == digits_value(t.drop_last()) * 10 + ((t.last() as u32) - 48) as nat);
        assert(digits_value(t.drop_last()) == n / 10);
        assert forall|i: int| 0 <= i < t.len() implies is_digit(#[trigger] t[i]) by {
            if i < t.len() - 1 {
                assert(t[i] == decimal_text(n / 10)[i]);
            }
        }
    } else {
        assert(is_digit(digit_char(n as int)));
        let t = decimal_text(n);
        assert(t.drop_last() =~= Seq::<char>::empty());
        assert((t.last() as u32) - 48 == n);
        assert(digits_value(t) == digits_value(t.drop_last()) * 10 + ((t.last() as u32) - 48) as nat);
        assert(digits_value(t.drop_last()) == 0);
    }
}

/// Reading back the decimal numeral of a number gives the number: what
/// `size_text` writes, `parse_string_to_usize` reads back.
pub proof fn law_decimal_roundtrip(n: nat)
    ensures
        unsigned_numeral(decimal_text(n)) == Some(n),
{
    lemma_decimal_text(n);
    let t = decimal_text(n);
    assert(is_digit(t[0]));
    assert(t[0] != '+');
    assert(unsigned_digits(t) == t);
}

/// Mapping two sequences with the same elements gives sequences with the
/// same elements.
pub proof fn lemma_map_same_elements<A, B>(a: Seq<A>, b: Seq<A>, f: spec_fn(A) -> B)
    requires
        a.to_multiset() == b.to_multiset(),
    ensures
        a.map_values(f).to_multiset() == b.map_values(f).to_multiset(),
    decreases a.len(),
{
    broadcast use vstd::seq_lib::group_to_multiset_ensures;
    broadcast use vstd::multiset::group_multiset_axioms;

    if a.len() == 0 {
        assert(a.to_multiset().len() == 0);
        assert(b.to_multiset().len() == b.len());
        assert(b.len() == 0);
        assert(a.map_values(f) =~= b.map_values(f));
    } else {
        let x = a.last();
        let a1 = a.drop_last();
        assert(a =~= a1.push(x));
        assert(a.to_multiset() =~= a1.to_multiset().insert(x));
        assert(b.to_multiset().count(x) > 0);
        assert(b.contains(x));
        let j = choose|j: int| 0 <= j < b.len() && b[j] == x;
        let b1 = b.remove(j);
        assert(b1.to_multiset() =~= b.to_multiset().remove(x));
        assert(a1.to_multiset() =~= b1.to_multiset());
        lemma_map_same_elements(a1, b1, f);
        assert(a.map_values(f) =~= a1.map_values(f).push(f(x)));
        assert(b.map_values(f).remove(j) =~= b1.map_values(f));
        assert(b.map_values(f)[j] == f(x));
        assert(b.map_values(f).to_multiset().count(f(x)) > 0) by {
            assert(b.map_values(f).contains(f(x)));
        }
        assert(b.map_values(f).remove(j).to_multiset() =~= b.map_values(f).to_multiset().remove(
            f(x),
        ));
        assert(b.map_values(f).to_multiset() =~= b1.map_values(f).to_multiset().insert(f(x)));
    }
}

/// The entries of a shuffled non-empty array are those of the array, each
/// as often as before, in the order the shuffle chose.
pub proof fn law_shuffle_entries(array: Seq<char>, order: Seq<usize>)
    requires
        array.len() > 0,
        array_entries(array).len() <= usize::MAX,
        order.to_multiset() == index_range(array_entries(array).len()).to_multiset(),
    ensures
        array_entries(array_text(arranged(array_entries(array), order))) == arranged(
            array_entries(array),
            order,
        ),
        arranged(array_entries(array), order).to_multiset() == array_entries(array).to_multiset(),
{
    broadcast use vstd::seq_lib::group_to_multiset_ensures;

    let es = array_entries(array);
    let n = es.len();
    let dl = array_delim();
    let out = arranged(es, order);
    lemma_delim_borderless();
    lemma_split_len(array, dl);
    lemma_split_pieces_free(array, dl);
    lemma_map_same_elements(order, index_range(n), |i: usize| es[i as int]);
    assert(arranged(es, index_range(n)) =~= es) by {
        assert forall|i: int| 0 <= i < n implies #[trigger] arranged(es, index_range(n))[i] == es[i] by {
            assert(index_range(n)[i] == i as usize);
        }
    }
    assert(out.len() == n) by {
        assert(order.to_multiset().len() == order.len());
        assert(index_range(n).to_multiset().len() == index_range(n).len());
    }
    assert forall|i: int| 0 <= i < out.len() implies !contains_text(#[trigger] out[i], dl) by {
        let x = out[i];
        assert(out.contains(x));
        assert(out.to_multiset().count(x) > 0);
        assert(es.contains(x));
        let k = choose|k: int| 0 <= k < es.len() && es[k] == x;
        assert(!contains_text(es[k], dl));
    }
    if out.len() == 1 && out[0].len() == 0 {
        assert(out.to_multiset().len() == 1);
        assert(es.len() == 1);
        assert(es[0] == array);
        assert(out.contains(out[0]));
        assert(out.to_multiset().count(out[0]) > 0);
        assert(es.contains(out[0]));
        assert(false);
    }
    lemma_split_join(out, dl);
}

/// The array delimiter alone is the array of two empty entries.
proof fn lemma_delim_entries()
    ensures
        array_entries(array_delim()) == seq![Seq::<char>::empty(), Seq::<char>::empty()],
        array_text(seq![Seq::<char>::empty(), Seq::<char>::empty()]) == array_delim(),
{
    let e = Seq::<char>::empty();
    let two = seq![e, e];
    lemma_delim_borderless();
    assert(!contains_text(e, array_delim())) by {
        assert forall|j: int| !occurs_at(e, array_delim(), j) by {}
    }
    assert(two.drop_first() =~= seq![e]);
    assert(join_text(seq![e], array_delim()) == e);
    assert(join_text(two, array_delim()) == e + array_delim() + join_text(two.drop_first(), array_delim()));
    assert(join_text(two, array_delim()) =~= array_delim());
    lemma_split_join(two, array_delim());
}

/// Entries that all contain `t` (or all do not) are all kept by the
/// selection for that case.
proof fn lemma_select_all(s: Seq<Seq<char>>, t: Seq<char>, wanted: bool)
    requires
        forall|i: int| 0 <= i < s.len() ==> contains_text(#[trigger] s[i], t) == wanted,
    ensures
        entries_where(s, t, wanted) == s,
    decreases s.len(),
{
    reveal(Seq::filter);
    if s.len() > 0 {
        let init = s.drop_last();
        assert forall|i: int| 0 <= i < init.len() implies contains_text(#[trigger] init[i], t)
            == wanted by {
            assert(init[i] == s[i]);
        }
        lemma_select_all(init, t, wanted);
        assert(contains_text(s.last(), t) == wanted);
        assert(init.push(s.last()) =~= s);
    }
}

/// Filtering an array a second time by the same text changes nothing, as
/// long as the first filter left an array that is not empty.
pub proof fn law_arrayfilter_idempotent(array: Seq<char>, t: Seq<char>)
    requires
        array_text(entries_where(array_entries(array), t, false)).len() > 0,
    ensures
        array_text(
            entries_where(
                array_entries(array_text(entries_where(array_entries(array), t, false))),
                t,
                false,
            ),
        ) == array_text(entries_where(array_entries(array), t, false)),
{
    broadcast use vstd::seq_lib::group_filter_ensures;

    let es = array_entries(array);
    let kept = entries_where(es, t, false);
    let dl = array_delim();
    lemma_delim_borderless();
    lemma_split_pieces_free(array, dl);
    assert forall|i: int| 0 <= i < kept.len() implies !contains_text(#[trigger] kept[i], dl)
        && !contains_text(kept[i], t) by {
        let x = kept[i];
        assert(kept.contains(x));
        es.lemma_filter_contains_rev(|e: Seq<char>| contains_text(e, t) == false, x);
        let k = choose|k: int| 0 <= k < es.len() && es[k] == x;
        assert(!contains_text(es[k], dl));
    }
    if kept.len() == 0 {
        assert(array_text(kept) =~= Seq::<char>::empty());
    } else if kept.len() == 1 && kept[0].len() == 0 {
        let e = Seq::<char>::empty();
        lemma_delim_entries();
        assert(kept[0] =~= e);
        assert(kept =~= seq![e]);
        assert(array_text(kept) == dl);
        assert(!contains_text(e, t));
        lemma_select_all(seq![e, e], t, false);
    } else {
        lemma_split_join(kept, dl);
        lemma_select_all(kept, t, false);
    }
}

/// Sorting an array a second time changes nothing.
pub proof fn law_arraysort_idempotent(array: Seq<char>)
    ensures
        array_text(sort_texts(array_entries(array_text(sort_texts(array_entries(array))))))
            == array_text(sort_texts(array_entries(array))),
{
    broadcast use vstd::seq_lib::group_to_multiset_ensures;

    let es = array_entries(array);
    let sorted = sort_texts(es);
    let dl = array_delim();
    lemma_delim_borderless();
    lemma_sort_texts(es);
    lemma_split_len(array, dl);
    lemma_split_pieces_free(array, dl);
    assert forall|i: int| 0 <= i < sorted.len() implies !contains_text(#[trigger] sorted[i], dl) by {
        let x = sorted[i];
        assert(sorted.contains(x));
        assert(sorted.to_multiset().count(x) > 0);
        assert(es.contains(x));
        let k = choose|k: int| 0 <= k < es.len() && es[k] == x;
        assert(!contains_text(es[k], dl));
    }
    if sorted.len() == 1 && sorted[0].len() == 0 {
        let e = Seq::<char>::empty();
        let two = seq![e, e];
        lemma_delim_entries();
        assert(sorted[0] =~= e);
        assert(sorted =~= seq![e]);
        assert(array_text(sorted) == dl);
        assert(texts_sorted(two));
        lemma_sort_sorted(two);
    } else {
        lemma_split_join(sorted, dl);
        lemma_sort_sorted(sorted);
    }
}

/// The array that `Nstring::split` writes for a non-empty text without the
/// array delimiter splits back at the delimiter into the pieces of the
/// text, and replacing the delimiter by the pattern gives back the text.
pub proof fn law_split_splits_back(s: Seq<char>, p: Seq<char>)
    requires
        s.len() > 0,
        !contains_text(s, array_delim()),
    ensures
        array_entries(array_text(split_text(s, p))) == split_text(s, p),
        join_text(array_entries(array_text(split_text(s, p))), p) == s,
{
    let pieces = split_text(s, p);
    let dl = array_delim();
    lemma_delim_borderless();
    lemma_split_len(s, p);
    lemma_split_pieces_within(s, p, dl);
    if p.len() == 0 {
        assert(pieces.len() == s.len() + 2);
        lemma_join_char_pieces(s);
        assert(p =~= Seq::<char>::empty());
    } else {
        lemma_join_split(s, p);
    }
    lemma_split_join(pieces, dl);
}

/// One clock reading comes before another: by year, then month, day,
/// hour, minute, second and millisecond.
pub open spec fn reading_before(a: ClockReading, b: ClockReading) -> bool {
    if a.year != b.year {
        a.year < b.year
    } else if a.month != b.month {
        a.month < b.month
    } else if a.day != b.day {
        a.day < b.day
    } else if a.hour != b.hour {
        a.hour < b.hour
    } else if a.minute != b.minute {
        a.minute < b.minute
    } else if a.second != b.second {
        a.second < b.second
    } else {
        a.millis < b.millis
    }
}

/// A number with one more digit of the given base behind it orders as the
/// pair of the number and the digit does.
proof fn lemma_digit_order(h1: int, l1: int, h2: int, l2: int, base: int)
    by (nonlinear_arith)
    requires
        base > 0,
        0 <= l1 < base,
        0 <= l2 < base,
    ensures
        (h1 * base + l1 < h2 * base + l2) == (h1 < h2 || (h1 == h2 && l1 < l2)),
        (h1 * base + l1 == h2 * base + l2) == (h1 == h2 && l1 == l2),
{
}

/// Time stamps order as the clock readings do: for readings of a year from
/// 0 on, outside a leap second, one stamp is smaller than another exactly
/// when its reading comes first, and two stamps are equal exactly when the
/// readings are.
pub proof fn law_stamps_follow_clock(a: ClockReading, b: ClockReading)
    requires
        valid_reading(a),
        valid_reading(b),
        a.year >= 0,
        b.year >= 0,
        a.millis < 1000,
        b.millis < 1000,
    ensures
        (stamp_value(a) < stamp_value(b)) == reading_before(a, b),
        (stamp_value(a) == stamp_value(b)) == (a == b),
{
    let a1 = a.year as int * 100 + a.month as int;
    let b1 = b.year as int * 100 + b.month as int;
    lemma_digit_order(a.year as int, a.month as int, b.year as int, b.month as int, 100);
    let a2 = a1 * 100 + a.day as int;
    let b2 = b1 * 100 + b.day as int;
    lemma_digit_order(a1, a.day as int, b1, b.day as int, 100);
    let a3 = a2 * 100 + a.hour as int;
    let b3 = b2 * 100 + b.hour as int;
    lemma_digit_order(a2, a.hour as int, b2, b.hour as int, 100);
    let a4 = a3 * 100 + a.minute as int;
    let b4 = b3 * 100 + b.minute as int;
    lemma_digit_order(a3, a.minute as int, b3, b.minute as int, 100);
    let a5 = a4 * 100 + a.second as int;
    let b5 = b4 * 100 + b.second as int;
    lemma_digit_order(a4, a.second as int, b4, b.second as int, 100);
    let a6 = a5 * 1000 + a.millis as int;
    let b6 = b5 * 1000 + b.millis as int;
    lemma_digit_order(a5, a.millis as int, b5, b.millis as int, 1000);
    assert(stamp_value(a) == a6);
    assert(stamp_value(b) == b6);
}

/// `Nstring::stringbetween` gives the text that starts right after the
/// first occurrence of `a` and ends where `b` first occurs after it: when
/// `a` first occurs at `i`, and `b` occurs `j` characters after the end of
/// that occurrence and not sooner, the result is those `j` characters.
pub proof fn law_stringbetween_finds(s: Seq<char>, a: Seq<char>, b: Seq<char>, i: int, j: int)
    requires
        occurs_at(s, a, i),
        forall|k: int| 0 <= k < i ==> !occurs_at(s, a, k),
        0 <= j,
        occurs_at(s, b, i + a.len() + j),
        forall|k: int| i + a.len() <= k < i + a.len() + j ==> !occurs_at(s, b, k),
    ensures
        text_between(s, a, b) == s.subrange(i + a.len(), i + a.len() + j),
{
    lemma_match_from_at(s, a, 0, i);
    let start = i + a.len();
    let rest = s.skip(start);
    assert forall|k: int| 0 <= k implies occurs_at(rest, b, k) == occurs_at(s, b, start + k) by {
        if k + b.len() <= rest.len() {
            assert(rest.subrange(k, k + b.len()) =~= s.subrange(start + k, start + k + b.len()));
        }
    }
    assert(occurs_at(rest, b, j));
    lemma_match_from_at(rest, b, 0, j);
    assert(rest.take(j) =~= s.subrange(start, start + j));
}

/// `Nstring::stringbetween` gives the empty text when `a` does not occur,
/// or when `b` does not occur after the first occurrence of `a`.
pub proof fn law_stringbetween_missing(s: Seq<char>, a: Seq<char>, b: Seq<char>)
    ensures
        (forall|k: int| !occurs_at(s, a, k)) ==> text_between(s, a, b).len() == 0,
        forall|i: int|
            #![trigger occurs_at(s, a, i)]
            occurs_at(s, a, i) && (forall|k: int| 0 <= k < i ==> !occurs_at(s, a, k)) && (forall|
                k: int,
            | k >= i + a.len() ==> !occurs_at(s, b, k)) ==> text_between(s, a, b).len() == 0,
{
    lemma_match_from(s, a, 0);
    assert forall|i: int|
        #![trigger occurs_at(s, a, i)]
        occurs_at(s, a, i) && (forall|k: int| 0 <= k < i ==> !occurs_at(s, a, k)) && (forall|k: int|
            k >= i + a.len() ==> !occurs_at(s, b, k)) implies text_between(s, a, b).len() == 0 by {
        lemma_match_from_at(s, a, 0, i);
        let start = i + a.len();
        let rest = s.skip(start);
        lemma_match_from(rest, b, 0);
        assert forall|k: int| 0 <= k implies !occurs_at(rest, b, k) by {
            if occurs_at(rest, b, k) {
                assert(rest.subrange(k, k + b.len()) =~= s.subrange(start + k, start + k + b.len()));
                assert(occurs_at(s, b, start + k));
            }
        }
    }
}

/// The order in which `arraysort` puts entries is the order of `str`: at
/// the first position where two texts differ, the one with the smaller code
/// point comes first.
pub proof fn law_text_order_first_difference(a: Seq<char>, b: Seq<char>, k: int)
    requires
        0 <= k < a.len(),
        k < b.len(),
        a.take(k) == b.take(k),
        a[k] != b[k],
    ensures
        text_lt(a, b) == ((a[k] as u32) < (b[k] as u32)),
    decreases k,
{
    if k > 0 {
        assert(a[0] == a.take(k)[0] && b[0] == b.take(k)[0]);
        assert(a.drop_first().take(k - 1) =~= a.take(k).drop_first());
        assert(b.drop_first().take(k - 1) =~= b.take(k).drop_first());
        law_text_order_first_difference(a.drop_first(), b.drop_first(), k - 1);
    }
}

/// In the order of `str` a text comes strictly before every longer text
/// that starts with it, and never after it.
pub proof fn law_text_order_prefix(a: Seq<char>, c: Seq<char>)
    requires
        c.len() > 0,
    ensures
        text_lt(a, a + c),
        !text_lt(a + c, a),
    decreases a.len(),
{
    if a.len() > 0 {
        assert((a + c).drop_first() =~= a.drop_first() + c);
        law_text_order_prefix(a.drop_first(), c);
    }
}

/// The padding of the encryption is PKCS#7: between 1 and 16 bytes, each
/// equal to their number, after the data, up to a whole 16-byte block.
pub proof fn law_pkcs7_padding(data: Seq<u8>)
    ensures
        1 <= 16 - data.len() % 16 <= 16,
        pkcs7_padded(data).len() == data.len() + (16 - data.len() % 16),
        pkcs7_padded(data).len() % 16 == 0,
        pkcs7_padded(data).take(data.len() as int) == data,
        forall|i: int|
            data.len() <= i < pkcs7_padded(data).len() ==> #[trigger] pkcs7_padded(data)[i] == (16
                - data.len() % 16) as u8,
{
    assert(pkcs7_padded(data).take(data.len() as int) =~= data);
}

/// Removing the padding accepts exactly PKCS#7 padding: what it gives back
/// is the text before a run of between 1 and 16 bytes, each equal to their
/// number.
pub proof fn law_pkcs7_unpadding_sound(x: Seq<u8>)
    ensures
        pkcs7_unpadded(x) matches Some(y) ==> {
            &&& 1 <= x.len() - y.len() <= 16
            &&& x.take(y.len() as int) == y
            &&& forall|i: int| y.len() <= i < x.len() ==> #[trigger] x[i] == (x.len() - y.len()) as u8
        },
{
}

/// Data followed by a run of between 1 and 16 bytes, each equal to their
/// number, has that run removed as padding.
pub proof fn law_pkcs7_unpadding_complete(x: Seq<u8>, y: Seq<u8>, n: int)
    requires
        1 <= n <= 16,
        x.len() == y.len() + n,
        x.take(y.len() as int) == y,
        forall|i: int| y.len() <= i < x.len() ==> #[trigger] x[i] == n as u8,
    ensures
        pkcs7_unpadded(x) == Some(y),
{
    assert(x[x.len() - 1] == n as u8);
}

/// `Nstring::stringtoeval` turns each of `- ~ ! # % ^ & * ( ) \ { } [ ] . ,
/// ? ' $ /` into `_` and keeps every other character.
pub proof fn law_stringtoeval_chars(s: Seq<char>)
    ensures
        s.map_values(|c: char| eval_safe_char(c)).len() == s.len(),
        forall|i: int|
            0 <= i < s.len() ==> s.map_values(|c: char| eval_safe_char(c))[i] == if #[trigger] s[i]
                == '-' || s[i] == '~' || s[i] == '!' || s[i] == '#' || s[i] == '%' || s[i] == '^'
                || s[i] == '&' || s[i] == '*' || s[i] == '(' || s[i] == ')' || s[i] == '\\' || s[i]
                == '{' || s[i] == '}' || s[i] == '[' || s[i] == ']' || s[i] == '.' || s[i] == ','
                || s[i] == '?' || s[i] == '\'' || s[i] == '$' || s[i] == '/' {
                '_'
            } else {
                s[i]
            },
{
}

} // verus!
