//! Nscript arrays: an array is a string whose entries stand between
//! occurrences of the array delimiter.
use vstd::prelude::*;

use crate::bindings::shuffle_indices;
use crate::order::{sort_chars, sort_texts};
use crate::text::{
    chars_of, contains_text, extend_chars, find_from, join_chars, join_text,
    lemma_match_from, occurs_at, slice_chars, split_chars, split_text, string_of, views,
};

verus! {

/// The delimiter between the entries of an Nscript array.
pub const NC_ARRAY_DELIM: &'static str = "]].n.c.arr.[[";

/// The characters of the array delimiter.
pub open spec fn array_delim() -> Seq<char> {
    seq![']', ']', '.', 'n', '.', 'c', '.', 'a', 'r', 'r', '.', '[', '[']
}

/// The text of an array with the given entries: the entries joined with the
/// delimiter, except that an array whose only entry is empty is written as
/// the bare delimiter.
pub open spec fn array_text(entries: Seq<Seq<char>>) -> Seq<char> {
    if entries.len() == 1 && entries[0].len() == 0 {
        array_delim()
    } else {
        join_text(entries, array_delim())
    }
}

/// The entries of an array text: its pieces between delimiters.
pub open spec fn array_entries(array: Seq<char>) -> Seq<Seq<char>> {
    split_text(array, array_delim())
}

/// The delimiter constant holds the characters of `array_delim`.
pub proof fn lemma_delim_view()
    ensures
        NC_ARRAY_DELIM@ == array_delim(),
{
    reveal_strlit("]].n.c.arr.[[");
    assert(NC_ARRAY_DELIM@ =~= array_delim());
}

/// The delimiter as a vector of characters.
pub fn delim_chars() -> (d: Vec<char>)
    ensures
        d@ == array_delim(),
{
    proof {
        lemma_delim_view();
    }
    chars_of(NC_ARRAY_DELIM)
}

/// The text of an array with the given entries, as `array_text` says.
pub fn array_text_chars(entries: &Vec<Vec<char>>) -> (r: Vec<char>)
    ensures
        r@ == array_text(views(entries@)),
{
    if entries.len() == 1 && entries[0].len() == 0 {
        delim_chars()
    } else {
        let d = delim_chars();
        join_chars(entries, &d)
    }
}

/// The text of an array with the given entries, as a string.
pub fn array_string(entries: &Vec<Vec<char>>) -> (r: String)
    ensures
        r@ == array_text(views(entries@)),
{
    let t = array_text_chars(entries);
    string_of(&t)
}

/// The pieces of `s` between the occurrences of `p`.
pub fn split(s: &str, p: &str) -> (r: Vec<String>)
    ensures
        r@.map_values(|x: String| x@) == split_text(s@, p@),
{
    let sv = chars_of(s);
    let pv = chars_of(p);
    let pieces = split_chars(&sv, &pv);
    let mut r: Vec<String> = Vec::new();
    let mut i: usize = 0;
    while i < pieces.len()
        invariant
            i <= pieces.len(),
            views(pieces@) == split_text(s@, p@),
            r@.map_values(|x: String| x@) == views(pieces@).take(i as int),
        decreases pieces.len() - i,
    {
        let piece = string_of(&pieces[i]);
        let ghost before = r@;
        r.push(piece);
        assert(r@.map_values(|x: String| x@) =~= before.map_values(|x: String| x@).push(
            pieces@[i as int]@,
        ));
        assert(r@.map_values(|x: String| x@) =~= views(pieces@).take(i + 1));
        i = i + 1;
    }
    assert(views(pieces@).take(pieces.len() as int) =~= views(pieces@));
    r
}

/// The entries that contain `t` (when `wanted`) or that do not (otherwise).
pub open spec fn entries_where(entries: Seq<Seq<char>>, t: Seq<char>, wanted: bool) -> Seq<
    Seq<char>,
> {
    entries.filter(|e: Seq<char>| contains_text(e, t) == wanted)
}

/// Adds `data` as a new last entry of the array.
pub fn arraypush(array: &str, data: &str) -> (res: String)
    ensures
        res@ == array@ + array_delim() + data@,
{
    let mut r = chars_of(array);
    let d = delim_chars();
    let dv = chars_of(data);
    extend_chars(&mut r, &d);
    extend_chars(&mut r, &dv);
    string_of(&r)
}

/// Adds `data` as a new last entry and drops the first entry.
pub fn arraypushroll(array: &str, data: &str) -> (res: String)
    ensures
        res@ == (array@ + array_delim() + data@).skip(
            (array_entries(array@)[0].len() + array_delim().len()) as int,
        ),
{
    let av = chars_of(array);
    let d = delim_chars();
    proof {
        lemma_match_from(av@, d@, 0);
    }
    let first_len = match find_from(&av, &d, 0) {
        Some(k) => {
            assert(occurs_at(av@, d@, k as int));
            assert(array_entries(array@)[0] == array@.take(k as int));
            k
        },
        None => {
            assert(array_entries(array@) == seq![array@]);
            av.len()
        },
    };
    let mut whole = chars_of(array);
    extend_chars(&mut whole, &d);
    let dv = chars_of(data);
    extend_chars(&mut whole, &dv);
    let n = whole.len();
    assert(first_len <= av@.len());
    assert(first_len + d@.len() <= n);
    let rest = slice_chars(&whole, first_len + d.len(), n);
    assert(rest@ =~= whole@.skip(first_len + d@.len()));
    string_of(&rest)
}

/// The entries of `entries` that contain `t` when `wanted`, or that do not.
fn select_entries(entries: &Vec<Vec<char>>, t: &Vec<char>, wanted: bool) -> (r: Vec<Vec<char>>)
    ensures
        views(r@) == entries_where(views(entries@), t@, wanted),
{
    let mut r: Vec<Vec<char>> = Vec::new();
    let mut i: usize = 0;
    assert(views(entries@).take(0) =~= Seq::<Seq<char>>::empty());
    assert(entries_where(Seq::<Seq<char>>::empty(), t@, wanted) =~= Seq::<Seq<char>>::empty())
        by {
        reveal(Seq::filter);
    }
    assert(views(r@) =~= Seq::<Seq<char>>::empty());
    while i < entries.len()
        invariant
            i <= entries.len(),
            views(r@) == entries_where(views(entries@).take(i as int), t@, wanted),
        decreases entries.len() - i,
    {
        let e = &entries[i];
        proof {
            lemma_match_from(e@, t@, 0);
        }
        let has = match find_from(e, t, 0) {
            Some(_) => true,
            None => {
                assert forall|j: int| !occurs_at(e@, t@, j) by {
                    if j >= 0 {
                    }
                }
                false
            },
        };
        assert(has == contains_text(e@, t@));
        let ghost before = r@;
        let ghost prefix = views(entries@).take(i + 1);
        assert(prefix.drop_last() =~= views(entries@).take(i as int));
        assert(prefix.last() == e@);
        assert(entries_where(prefix, t@, wanted) == if contains_text(e@, t@) == wanted {
            entries_where(views(entries@).take(i as int), t@, wanted).push(e@)
        } else {
            entries_where(views(entries@).take(i as int), t@, wanted)
        }) by {
            reveal(Seq::filter);
        }
        if has == wanted {
            r.push(entries[i].clone());
            assert(views(r@) =~= views(before).push(e@));
        }
        i = i + 1;
    }
    assert(views(entries@).take(entries.len() as int) =~= views(entries@));
    r
}

/// The array without the entries that contain `tofilter`.
pub fn arrayfilter(array: &str, tofilter: &str) -> (res: String)
    ensures
        res@ == array_text(entries_where(array_entries(array@), tofilter@, false)),
{
    let av = chars_of(array);
    let d = delim_chars();
    let entries = split_chars(&av, &d);
    let tv = chars_of(tofilter);
    let kept = select_entries(&entries, &tv, false);
    array_string(&kept)
}

/// The array of the entries that contain `tosearch`.
pub fn arraysearch(array: &str, tosearch: &str) -> (res: String)
    ensures
        res@ == array_text(entries_where(array_entries(array@), tosearch@, true)),
{
    let av = chars_of(array);
    let d = delim_chars();
    let entries = split_chars(&av, &d);
    let tv = chars_of(tosearch);
    let kept = select_entries(&entries, &tv, true);
    array_string(&kept)
}

/// The array with its entries in ascending text order (the order of
/// `str`, which compares code points from the left).
pub fn arraysort(array: &str) -> (res: String)
    ensures
        res@ == array_text(sort_texts(array_entries(array@))),
{
    let av = chars_of(array);
    let d = delim_chars();
    let entries = split_chars(&av, &d);
    let sorted = sort_chars(&entries);
    array_string(&sorted)
}

/// The numbers `0` to `n - 1` in ascending order.
pub open spec fn index_range(n: nat) -> Seq<usize> {
    Seq::new(n, |i: int| i as usize)
}

/// The entries of `entries` taken in the given order of their positions.
pub open spec fn arranged(entries: Seq<Seq<char>>, order: Seq<usize>) -> Seq<Seq<char>> {
    order.map_values(|i: usize| entries[i as int])
}

/// The array whose entries are those of `array` taken in the given order of
/// their positions.
pub fn arrangement(array: &str, order: &Vec<usize>) -> (res: String)
    requires
        forall|k: int| 0 <= k < order@.len() ==> #[trigger] order@[k] < array_entries(array@).len(),
    ensures
        res@ == array_text(arranged(array_entries(array@), order@)),
{
    let av = chars_of(array);
    let d = delim_chars();
    let entries = split_chars(&av, &d);
    let mut out: Vec<Vec<char>> = Vec::new();
    let mut i: usize = 0;
    while i < order.len()
        invariant
            i <= order@.len(),
            views(entries@) == array_entries(array@),
            forall|k: int| 0 <= k < order@.len() ==> #[trigger] order@[k] < entries@.len(),
            views(out@) == arranged(views(entries@), order@.take(i as int)),
        decreases order.len() - i,
    {
        let ghost before = out@;
        let k = order[i];
        out.push(entries[k].clone());
        assert(views(out@) =~= views(before).push(entries@[k as int]@));
        assert(order@.take(i + 1) =~= order@.take(i as int).push(k));
        assert(arranged(views(entries@), order@.take(i + 1)) =~= arranged(
            views(entries@),
            order@.take(i as int),
        ).push(views(entries@)[k as int]));
        assert(views(out@) =~= arranged(views(entries@), order@.take(i + 1)));
        i = i + 1;
    }
    assert(order@.take(order@.len() as int) =~= order@);
    array_string(&out)
}

/// The array with its entries in a random order.
pub fn arrayshuffle(arraystr: &str) -> (res: String)
    ensures
        exists|order: Seq<usize>|
            order.to_multiset() == index_range(array_entries(arraystr@).len()).to_multiset()
                && res@ == array_text(arranged(array_entries(arraystr@), order)),
{
    let av = chars_of(arraystr);
    let d = delim_chars();
    let entries = split_chars(&av, &d);
    let n = entries.len();
    let mut order: Vec<usize> = Vec::new();
    let mut i: usize = 0;
    while i < n
        invariant
            i <= n,
            order@ == index_range(n as nat).take(i as int),
        decreases n - i,
    {
        order.push(i);
        assert(order@ =~= index_range(n as nat).take(i + 1));
        i = i + 1;
    }
    assert(order@ =~= index_range(n as nat));
    let ghost start = order@;
    shuffle_indices(&mut order);
    proof {
        broadcast use vstd::seq_lib::group_to_multiset_ensures;
        assert forall|k: int| 0 <= k < order@.len() implies #[trigger] order@[k]
            < array_entries(arraystr@).len() by {
            let x = order@[k];
            assert(order@.contains(x));
            assert(order@.to_multiset().count(x) > 0);
            assert(start.to_multiset().count(x) > 0);
            assert(start.contains(x));
        }
    }
    arrangement(arraystr, &order)
}

} // verus!
