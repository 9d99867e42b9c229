//! The mathematical model of text used by the whole library: a text is a
//! sequence of `char`s, a pattern matches at a position when the text holds
//! the pattern there, and splitting and joining are defined over sequences.
use vstd::prelude::*;

verus! {

/// `p` occurs in `s` starting at position `i`.
pub open spec fn occurs_at(s: Seq<char>, p: Seq<char>, i: int) -> bool {
    &&& 0 <= i
    &&& i + p.len() <= s.len()
    &&& s.subrange(i, i + p.len()) == p
}

/// `p` occurs somewhere in `s` (the empty pattern occurs in every text).
pub open spec fn contains_text(s: Seq<char>, p: Seq<char>) -> bool {
    exists|i: int| occurs_at(s, p, i)
}

/// The first position at or after `i` where `p` occurs in `s`.
pub open spec fn match_from(s: Seq<char>, p: Seq<char>, i: int) -> Option<int>
    decreases s.len() + 1 - i,
{
    if i < 0 || i + p.len() > s.len() {
        None
    } else if occurs_at(s, p, i) {
        Some(i)
    } else {
        match_from(s, p, i + 1)
    }
}

/// The first position where `p` occurs in `s`.
pub open spec fn first_match(s: Seq<char>, p: Seq<char>) -> Option<int> {
    match_from(s, p, 0)
}

/// The pieces of `s` between the non-overlapping occurrences of `p`, found
/// from left to right. The empty pattern matches before and after every
/// character, so it cuts `s` into its characters with an empty piece at
/// each end.
pub open spec fn split_text(s: Seq<char>, p: Seq<char>) -> Seq<Seq<char>>
    decreases s.len(),
{
    if p.len() == 0 {
        seq![Seq::<char>::empty()] + s.map_values(|c: char| seq![c]) + seq![Seq::<char>::empty()]
    } else {
        match first_match(s, p) {
            Some(k) => if 0 <= k && k + p.len() <= s.len() {
                seq![s.take(k)] + split_text(s.skip(k + p.len()), p)
            } else {
                seq![s]
            },
            None => seq![s],
        }
    }
}

/// The pieces joined together with `sep` between each two of them.
pub open spec fn join_text(pieces: Seq<Seq<char>>, sep: Seq<char>) -> Seq<char>
    decreases pieces.len(),
{
    if pieces.len() == 0 {
        Seq::empty()
    } else if pieces.len() == 1 {
        pieces[0]
    } else {
        pieces[0] + sep + join_text(pieces.drop_first(), sep)
    }
}

/// The views of a sequence of character vectors.
pub open spec fn views(vs: Seq<Vec<char>>) -> Seq<Seq<char>> {
    vs.map_values(|v: Vec<char>| v@)
}

/// Characterisation of `match_from`: the position found holds the pattern
/// and no earlier position from `i` on does.
pub proof fn lemma_match_from(s: Seq<char>, p: Seq<char>, i: int)
    requires
        0 <= i,
    ensures
        match match_from(s, p, i) {
            Some(k) => i <= k && occurs_at(s, p, k) && forall|j: int|
                i <= j < k ==> !occurs_at(s, p, j),
            None => forall|j: int| i <= j ==> !occurs_at(s, p, j),
        },
    decreases s.len() + 1 - i,
{
    if i + p.len() > s.len() {
    } else if occurs_at(s, p, i) {
    } else {
        lemma_match_from(s, p, i + 1);
    }
}

/// Searching `s` from `i` is searching the rest of `s` from its start.
pub proof fn lemma_match_from_skip(s: Seq<char>, p: Seq<char>, i: int, j: int)
    requires
        0 <= i <= s.len(),
        0 <= j,
    ensures
        match_from(s, p, i + j) == match match_from(s.skip(i), p, j) {
            Some(k) => Some(k + i),
            None => None,
        },
    decreases s.len() + 1 - i - j,
{
    let t = s.skip(i);
    if i + j + p.len() > s.len() {
    } else {
        assert(s.subrange(i + j, i + j + p.len()) =~= t.subrange(j, j + p.len()));
        if occurs_at(s, p, i + j) {
        } else {
            lemma_match_from_skip(s, p, i, j + 1);
        }
    }
}

/// Joining one more piece at the end.
pub proof fn lemma_join_push(pieces: Seq<Seq<char>>, sep: Seq<char>, x: Seq<char>)
    requires
        pieces.len() > 0,
    ensures
        join_text(pieces.push(x), sep) == join_text(pieces, sep) + sep + x,
    decreases pieces.len(),
{
    if pieces.len() == 1 {
        assert(pieces.push(x).drop_first() =~= seq![x]);
        assert(join_text(seq![x], sep) == x);
    } else {
        assert(pieces.push(x).drop_first() =~= pieces.drop_first().push(x));
        lemma_join_push(pieces.drop_first(), sep, x);
        assert(join_text(pieces.push(x), sep) == pieces[0] + sep + join_text(
            pieces.drop_first().push(x),
            sep,
        ));
        assert(join_text(pieces.push(x), sep) =~= join_text(pieces, sep) + sep + x);
    }
}

/// `p` has no border: no proper non-empty prefix of `p` is also a suffix.
pub open spec fn borderless(p: Seq<char>) -> bool {
    forall|m: int| 0 < m < p.len() ==> #[trigger] p.take(m) != p.skip(p.len() - m)
}

/// A position holding the pattern, with none before it from `i` on, is the
/// one `match_from` finds.
pub proof fn lemma_match_from_at(s: Seq<char>, p: Seq<char>, i: int, k: int)
    requires
        0 <= i <= k,
        occurs_at(s, p, k),
        forall|j: int| i <= j < k ==> !occurs_at(s, p, j),
    ensures
        match_from(s, p, i) == Some(k),
    decreases k - i,
{
    if i < k {
        lemma_match_from_at(s, p, i + 1, k);
    }
}

/// Splitting gives at least one piece.
pub proof fn lemma_split_len(s: Seq<char>, p: Seq<char>)
    ensures
        split_text(s, p).len() >= 1,
        p.len() > 0 && split_text(s, p).len() == 1 ==> split_text(s, p)[0] == s,
    decreases s.len(),
{
    if p.len() > 0 {
        lemma_match_from(s, p, 0);
        match first_match(s, p) {
            Some(k) => {
                lemma_split_len(s.skip(k + p.len()), p);
            },
            None => {},
        }
    }
}

/// Joining the pieces of a split with the pattern gives back the text.
pub proof fn lemma_join_split(s: Seq<char>, p: Seq<char>)
    requires
        p.len() > 0,
    ensures
        join_text(split_text(s, p), p) == s,
    decreases s.len(),
{
    lemma_match_from(s, p, 0);
    match first_match(s, p) {
        Some(k) => {
            let rest = s.skip(k + p.len());
            lemma_join_split(rest, p);
            lemma_split_len(rest, p);
            let pieces = split_text(s, p);
            assert(pieces.drop_first() =~= split_text(rest, p));
            assert(s =~= s.take(k) + p + rest);
        },
        None => {},
    }
}

/// No piece of a split holds the pattern.
pub proof fn lemma_split_pieces_free(s: Seq<char>, p: Seq<char>)
    requires
        p.len() > 0,
    ensures
        forall|i: int| 0 <= i < split_text(s, p).len() ==> !contains_text(#[trigger] split_text(s, p)[i], p),
    decreases s.len(),
{
    lemma_match_from(s, p, 0);
    match first_match(s, p) {
        Some(k) => {
            let rest = s.skip(k + p.len());
            lemma_split_pieces_free(rest, p);
            let pieces = split_text(s, p);
            assert forall|i: int| 0 <= i < pieces.len() implies !contains_text(#[trigger] pieces[i], p) by {
                if i == 0 {
                    assert forall|j: int| !occurs_at(s.take(k), p, j) by {
                        if occurs_at(s.take(k), p, j) {
                            assert(s.take(k).subrange(j, j + p.len()) =~= s.subrange(j, j + p.len()));
                            assert(occurs_at(s, p, j));
                        }
                    }
                } else {
                    assert(pieces[i] == split_text(rest, p)[i - 1]);
                }
            }
        },
        None => {
            assert forall|j: int| !occurs_at(s, p, j) by {
                if j < 0 {
                }
            }
        },
    }
}

/// In `x + p + y` the first occurrence of a borderless `p` is the one after
/// `x`, when `x` does not hold `p`.
pub proof fn lemma_first_match_after(x: Seq<char>, p: Seq<char>, y: Seq<char>)
    requires
        p.len() > 0,
        borderless(p),
        !contains_text(x, p),
    ensures
        first_match(x + p + y, p) == Some(x.len() as int),
{
    let w = x + p + y;
    assert(w.subrange(x.len() as int, (x.len() + p.len()) as int) =~= p);
    assert forall|i: int| 0 <= i < x.len() implies !occurs_at(w, p, i) by {
        if occurs_at(w, p, i) {
            if i + p.len() <= x.len() {
                assert(x.subrange(i, i + p.len()) =~= w.subrange(i, i + p.len()));
                assert(occurs_at(x, p, i));
            } else {
                let m = i + p.len() - x.len();
                assert(0 < m < p.len());
                assert(p.take(m) =~= w.subrange(i, i + p.len()).skip(p.len() - m));
                assert(p.skip(p.len() - m) =~= w.subrange(i, i + p.len()).skip(p.len() - m));
                assert(p.take(m) != p.skip(p.len() - m));
            }
        }
    }
    lemma_match_from_at(w, p, 0, x.len() as int);
}

/// Splitting pieces joined with a borderless pattern that none of them
/// holds gives back the pieces.
pub proof fn lemma_split_join(pieces: Seq<Seq<char>>, p: Seq<char>)
    requires
        pieces.len() >= 1,
        p.len() > 0,
        borderless(p),
        forall|i: int| 0 <= i < pieces.len() ==> !contains_text(#[trigger] pieces[i], p),
    ensures
        split_text(join_text(pieces, p), p) == pieces,
    decreases pieces.len(),
{
    if pieces.len() == 1 {
        let s = pieces[0];
        lemma_match_from(s, p, 0);
        if first_match(s, p) is Some {
            let k = first_match(s, p)->0;
            assert(occurs_at(s, p, k));
        }
        assert(split_text(s, p) =~= pieces);
    } else {
        let rest = pieces.drop_first();
        assert forall|i: int| 0 <= i < rest.len() implies !contains_text(#[trigger] rest[i], p) by {
            assert(rest[i] == pieces[i + 1]);
        }
        lemma_split_join(rest, p);
        let x = pieces[0];
        let y = join_text(rest, p);
        let w = join_text(pieces, p);
        assert(w == x + p + y);
        lemma_first_match_after(x, p, y);
        assert(w.take(x.len() as int) =~= x);
        assert(w.skip((x.len() + p.len()) as int) =~= y);
        assert(split_text(w, p) =~= pieces);
    }
}

/// A text without `d` splits into pieces without `d`.
pub proof fn lemma_split_pieces_within(s: Seq<char>, p: Seq<char>, d: Seq<char>)
    requires
        d.len() > 0,
        !contains_text(s, d),
    ensures
        forall|i: int| 0 <= i < split_text(s, p).len() ==> !contains_text(#[trigger] split_text(s, p)[i], d),
    decreases s.len(),
{
    let pieces = split_text(s, p);
    if p.len() == 0 {
        assert forall|i: int| 0 <= i < pieces.len() implies !contains_text(#[trigger] pieces[i], d) by {
            if 1 <= i <= s.len() {
                assert(pieces[i] == seq![s[i - 1]]);
                assert forall|j: int| !occurs_at(pieces[i], d, j) by {
                    if occurs_at(pieces[i], d, j) {
                        assert(j == 0 && d.len() == 1);
                        assert(s.subrange(i - 1, i) =~= pieces[i].subrange(0, 1));
                        assert(occurs_at(s, d, i - 1));
                    }
                }
            } else {
                assert(pieces[i].len() == 0);
                assert forall|j: int| !occurs_at(pieces[i], d, j) by {}
            }
        }
    } else {
        lemma_match_from(s, p, 0);
        match first_match(s, p) {
            Some(k) => {
                let rest = s.skip(k + p.len());
                assert forall|j: int| !occurs_at(rest, d, j) by {
                    if occurs_at(rest, d, j) {
                        assert(rest.subrange(j, j + d.len()) =~= s.subrange(
                            j + k + p.len(),
                            j + k + p.len() + d.len(),
                        ));
                        assert(occurs_at(s, d, j + k + p.len()));
                    }
                }
                lemma_split_pieces_within(rest, p, d);
                assert forall|i: int| 0 <= i < pieces.len() implies !contains_text(#[trigger] pieces[i], d) by {
                    if i == 0 {
                        assert forall|j: int| !occurs_at(s.take(k), d, j) by {
                            if occurs_at(s.take(k), d, j) {
                                assert(s.take(k).subrange(j, j + d.len()) =~= s.subrange(j, j + d.len()));
                                assert(occurs_at(s, d, j));
                            }
                        }
                    } else {
                        assert(pieces[i] == split_text(rest, p)[i - 1]);
                    }
                }
            },
            None => {},
        }
    }
}

/// The first `n` characters, each a piece of its own after an empty
/// piece, join back into those characters.
proof fn lemma_join_char_prefix(s: Seq<char>, n: int)
    requires
        0 <= n <= s.len(),
    ensures
        join_text(seq![Seq::<char>::empty()] + s.take(n).map_values(|c: char| seq![c]), Seq::<char>::empty())
            == s.take(n),
    decreases n,
{
    let e = Seq::<char>::empty();
    if n == 0 {
        assert(seq![e] + s.take(0).map_values(|c: char| seq![c]) =~= seq![e]);
        assert(s.take(0) =~= e);
    } else {
        lemma_join_char_prefix(s, n - 1);
        let pn = seq![e] + s.take(n - 1).map_values(|c: char| seq![c]);
        lemma_join_push(pn, e, seq![s[n - 1]]);
        assert(seq![e] + s.take(n).map_values(|c: char| seq![c]) =~= pn.push(seq![s[n - 1]]));
        assert(s.take(n - 1) + e + seq![s[n - 1]] =~= s.take(n));
    }
}

/// The pieces that the empty pattern cuts a text into join back, with
/// nothing between them, into the text.
pub proof fn lemma_join_char_pieces(s: Seq<char>)
    ensures
        join_text(split_text(s, Seq::empty()), Seq::empty()) == s,
{
    let e = Seq::<char>::empty();
    lemma_join_char_prefix(s, s.len() as int);
    let pn = seq![e] + s.take(s.len() as int).map_values(|c: char| seq![c]);
    lemma_join_push(pn, e, e);
    assert(s.take(s.len() as int) =~= s);
    assert(split_text(s, e) =~= pn.push(e));
    assert(s + e + e =~= s);
}

/// Copies of the characters of a string slice.
pub fn chars_of(s: &str) -> (v: Vec<char>)
    ensures
        v@ == s@,
{
    let mut v: Vec<char> = Vec::new();
    for c in it: s.chars()
        invariant
            v@ == it.seq().take(it.index() as int),
    {
        v.push(c);
    }
    v
}

/// Appends one character to a string.
#[verifier::external_body]
pub(crate) fn push_char(s: &mut String, c: char)
    ensures
        final(s)@ == old(s)@.push(c),
{
    s.push(c);
}

/// A string holding the given characters.
pub fn string_of(v: &Vec<char>) -> (s: String)
    ensures
        s@ == v@,
{
    let mut s = String::new();
    let mut i: usize = 0;
    while i < v.len()
        invariant
            i <= v.len(),
            s@ == v@.take(i as int),
        decreases v.len() - i,
    {
        push_char(&mut s, v[i]);
        assert(v@.take(i as int).push(v@[i as int]) =~= v@.take(i + 1));
        i = i + 1;
    }
    assert(v@.take(v.len() as int) =~= v@);
    s
}

/// The characters of `s` from `from` up to `to`.
pub fn slice_chars(s: &Vec<char>, from: usize, to: usize) -> (r: Vec<char>)
    requires
        from <= to <= s.len(),
    ensures
        r@ == s@.subrange(from as int, to as int),
{
    let mut r: Vec<char> = Vec::new();
    let mut i = from;
    while i < to
        invariant
            from <= i <= to <= s.len(),
            r@ == s@.subrange(from as int, i as int),
        decreases to - i,
    {
        r.push(s[i]);
        assert(r@ =~= s@.subrange(from as int, i + 1));
        i = i + 1;
    }
    r
}

/// Appends the characters of `t` to `r`.
pub fn extend_chars(r: &mut Vec<char>, t: &Vec<char>)
    ensures
        final(r)@ == old(r)@ + t@,
{
    let mut i: usize = 0;
    while i < t.len()
        invariant
            i <= t.len(),
            r@ == old(r)@ + t@.take(i as int),
        decreases t.len() - i,
    {
        r.push(t[i]);
        assert(r@ =~= old(r)@ + t@.take(i + 1));
        i = i + 1;
    }
    assert(t@.take(t.len() as int) =~= t@);
}

/// Whether `p` occurs in `s` at position `i`.
pub fn occurs_at_exec(s: &Vec<char>, p: &Vec<char>, i: usize) -> (r: bool)
    ensures
        r == occurs_at(s@, p@, i as int),
{
    if p.len() > s.len() || i > s.len() - p.len() {
        return false;
    }
    let mut j: usize = 0;
    while j < p.len()
        invariant
            j <= p.len(),
            i + p.len() <= s.len(),
            forall|k: int| 0 <= k < j ==> s@[i + k] == p@[k],
        decreases p.len() - j,
    {
        if s[i + j] != p[j] {
            assert(s@.subrange(i as int, i + p.len())[j as int] != p@[j as int]);
            return false;
        }
        j = j + 1;
    }
    assert(s@.subrange(i as int, i + p.len()) =~= p@);
    true
}

/// The first position at or after `start` where `p` occurs in `s`.
pub fn find_from(s: &Vec<char>, p: &Vec<char>, start: usize) -> (r: Option<usize>)
    ensures
        match r {
            Some(k) => match_from(s@, p@, start as int) == Some(k as int),
            None => match_from(s@, p@, start as int) is None,
        },
{
    if p.len() > s.len() {
        return None;
    }
    let last = s.len() - p.len();
    let mut i = start;
    while i <= last
        invariant
            start <= i,
            last + p.len() == s.len(),
            match_from(s@, p@, start as int) == match_from(s@, p@, i as int),
        decreases last + 1 - i,
    {
        if occurs_at_exec(s, p, i) {
            return Some(i);
        }
        if i == last {
            assert(match_from(s@, p@, i + 1) is None);
            return None;
        }
        i = i + 1;
    }
    None
}

/// The pieces of `s` cut at the occurrences of `p`, as `split_text` says.
pub fn split_chars(s: &Vec<char>, p: &Vec<char>) -> (r: Vec<Vec<char>>)
    ensures
        views(r@) == split_text(s@, p@),
{
    let mut r: Vec<Vec<char>> = Vec::new();
    if p.len() == 0 {
        r.push(Vec::new());
        let mut i: usize = 0;
        while i < s.len()
            invariant
                i <= s.len(),
                p@.len() == 0,
                views(r@) == seq![Seq::<char>::empty()] + s@.take(i as int).map_values(
                    |c: char| seq![c],
                ),
            decreases s.len() - i,
        {
            let mut one: Vec<char> = Vec::new();
            one.push(s[i]);
            let ghost before = r@;
            r.push(one);
            assert(views(r@) =~= views(before).push(one@));
            assert(s@.take(i + 1).map_values(|c: char| seq![c]) =~= s@.take(i as int).map_values(
                |c: char| seq![c],
            ).push(seq![s@[i as int]]));
            i = i + 1;
        }
        let ghost before = r@;
        r.push(Vec::new());
        assert(views(r@) =~= views(before).push(Seq::<char>::empty()));
        assert(s@.take(s.len() as int) =~= s@);
        return r;
    }
    let mut pos: usize = 0;
    assert(s@.skip(0) =~= s@);
    assert(views(r@) =~= Seq::<Seq<char>>::empty());
    loop
        invariant
            pos <= s.len(),
            p@.len() > 0,
            views(r@) + split_text(s@.skip(pos as int), p@) == split_text(s@, p@),
        decreases s.len() - pos,
    {
        let ghost t = s@.skip(pos as int);
        proof {
            lemma_match_from_skip(s@, p@, pos as int, 0);
            lemma_match_from(s@, p@, pos as int);
        }
        match find_from(s, p, pos) {
            None => {
                let piece = slice_chars(s, pos, s.len());
                assert(piece@ =~= t);
                assert(split_text(t, p@) == seq![t]);
                let ghost before = r@;
                r.push(piece);
                assert(views(r@) =~= views(before) + seq![t]);
                return r;
            },
            Some(k) => {
                let piece = slice_chars(s, pos, k);
                let ghost j = k - pos;
                assert(first_match(t, p@) == Some(j));
                assert(piece@ =~= t.take(j));
                assert(t.skip(j + p@.len()) =~= s@.skip(k + p@.len()));
                assert(split_text(t, p@) == seq![t.take(j)] + split_text(t.skip(j + p@.len()), p@));
                let ghost before = r@;
                r.push(piece);
                assert(views(r@) =~= views(before).push(piece@));
                assert(views(r@) + split_text(s@.skip(k + p@.len()), p@) =~= views(before)
                    + split_text(t, p@));
                pos = k + p.len();
            },
        }
    }
}

/// The pieces joined with `sep` between each two, as `join_text` says.
pub fn join_chars(pieces: &Vec<Vec<char>>, sep: &Vec<char>) -> (r: Vec<char>)
    ensures
        r@ == join_text(views(pieces@), sep@),
{
    let mut r: Vec<char> = Vec::new();
    if pieces.len() == 0 {
        return r;
    }
    extend_chars(&mut r, &pieces[0]);
    let mut i: usize = 1;
    assert(views(pieces@).take(1) =~= seq![pieces@[0]@]);
    assert(join_text(seq![pieces@[0]@], sep@) == pieces@[0]@);
    while i < pieces.len()
        invariant
            1 <= i <= pieces.len(),
            r@ == join_text(views(pieces@).take(i as int), sep@),
        decreases pieces.len() - i,
    {
        proof {
            lemma_join_push(views(pieces@).take(i as int), sep@, pieces@[i as int]@);
            assert(views(pieces@).take(i as int).push(pieces@[i as int]@) =~= views(pieces@).take(
                i + 1,
            ));
        }
        extend_chars(&mut r, sep);
        extend_chars(&mut r, &pieces[i]);
        i = i + 1;
    }
    assert(views(pieces@).take(pieces.len() as int) =~= views(pieces@));
    r
}

} // verus!
