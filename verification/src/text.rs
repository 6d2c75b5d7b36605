//! Multi-valued cell text: space stripping, comma splitting, and the
//! collapse of repeated values.

use vstd::prelude::*;

verus! {

/// The text with every space character taken out.
pub open spec fn without_spaces(s: Seq<char>) -> Seq<char>
    decreases s.len(),
{
    if s.len() == 0 {
        Seq::empty()
    } else if s.last() == ' ' {
        without_spaces(s.drop_last())
    } else {
        without_spaces(s.drop_last()).push(s.last())
    }
}

/// The runs of text between the commas of `s`, empty runs included: one more
/// than there are commas.
pub open spec fn pieces(s: Seq<char>) -> Seq<Seq<char>>
    decreases s.len(),
{
    if s.len() == 0 {
        seq![Seq::empty()]
    } else {
        let before = pieces(s.drop_last());
        if s.last() == ',' {
            before.push(Seq::empty())
        } else {
            before.drop_last().push(before.last().push(s.last()))
        }
    }
}

/// The pieces put together again, with a comma between each two.
pub open spec fn joined(ps: Seq<Seq<char>>) -> Seq<char>
    decreases ps.len(),
{
    if ps.len() == 0 {
        Seq::empty()
    } else if ps.len() == 1 {
        ps[0]
    } else {
        joined(ps.drop_last()) + seq![','] + ps.last()
    }
}

/// The members of `fs` that are not empty, in their order.
pub open spec fn nonempty(fs: Seq<Seq<char>>) -> Seq<Seq<char>>
    decreases fs.len(),
{
    if fs.len() == 0 {
        Seq::empty()
    } else if fs.last().len() == 0 {
        nonempty(fs.drop_last())
    } else {
        nonempty(fs.drop_last()).push(fs.last())
    }
}

/// The values listed in a cell: spaces are stripped first, the rest is split
/// on commas, and empty values are dropped.
pub open spec fn fragments(cell: Seq<char>) -> Seq<Seq<char>> {
    nonempty(pieces(without_spaces(cell)))
}

/// `fs` with only the first occurrence of each value kept.
pub open spec fn distinct(fs: Seq<Seq<char>>) -> Seq<Seq<char>>
    decreases fs.len(),
{
    if fs.len() == 0 {
        Seq::empty()
    } else {
        let before = distinct(fs.drop_last());
        if before.contains(fs.last()) {
            before
        } else {
            before.push(fs.last())
        }
    }
}

/// The set of values in a cell, in the order of their first occurrence.
pub open spec fn value_set(cell: Seq<char>) -> Seq<Seq<char>> {
    distinct(fragments(cell))
}

/// Whether `vs` is a set of values: none occurs twice, and none is empty or
/// holds a space.
pub open spec fn is_value_set(vs: Seq<Seq<char>>) -> bool {
    &&& vs.no_duplicates()
    &&& forall|i: int| 0 <= i < vs.len() ==> (#[trigger] vs[i]).len() > 0 && free_of(vs[i], ' ')
}

/// The character sequences that a vector of strings holds.
pub open spec fn texts(v: Seq<String>) -> Seq<Seq<char>> {
    v.map_values(|s: String| s@)
}

/// There is always at least one piece.
pub proof fn lemma_pieces_len(s: Seq<char>)
    ensures
        pieces(s).len() >= 1,
    decreases s.len(),
{
    if s.len() > 0 {
        lemma_pieces_len(s.drop_last());
    }
}

/// Splitting loses nothing: the pieces of a text, joined by commas, are the
/// text.
pub proof fn lemma_pieces_joined(s: Seq<char>)
    ensures
        joined(pieces(s)) == s,
    decreases s.len(),
{
    if s.len() == 0 {
        assert(joined(pieces(s)) =~= s);
    } else {
        let init = s.drop_last();
        let before = pieces(init);
        lemma_pieces_joined(init);
        lemma_pieces_len(init);
        if s.last() == ',' {
            assert(before.push(Seq::empty()).drop_last() == before);
            assert(joined(pieces(s)) =~= init.push(','));
        } else {
            let after = before.drop_last().push(before.last().push(s.last()));
            if before.len() > 1 {
                assert(after.drop_last() == before.drop_last());
            }
            assert(joined(after) =~= joined(before).push(s.last()));
        }
        assert(init.push(s.last()) =~= s);
    }
}

/// `String::push`: the string afterwards is the string before with `c` at
/// its end.
#[verifier::external_body]
pub(crate) fn push_char(s: &mut String, c: char)
    ensures
        final(s)@ == old(s)@.push(c),
{
    s.push(c)
}

/// The characters of a string.
pub fn chars_of(s: &str) -> (out: Vec<char>)
    ensures
        out@ == s@,
{
    broadcast use vstd::string::axiom_spec_iter;

    let mut out: Vec<char> = Vec::new();
    for c in it: s.chars()
        invariant
            it.seq() == s@,
            out@ == s@.take(it.index() as int),
    {
        out.push(c);
        assert(out@ =~= s@.take(it.index() + 1));
    }
    assert(s@.take(s@.len() as int) == s@);
    out
}

/// Splits a cell into its values.
pub fn split_fragments(cell: &str) -> (out: Vec<String>)
    ensures
        texts(out@) == fragments(cell@),
{
    broadcast use vstd::string::axiom_spec_iter;

    let mut out: Vec<String> = Vec::new();
    let mut cur: String = String::new();
    proof {
        assert(cell@.take(0).len() == 0);
        assert(texts(out@) =~= Seq::<Seq<char>>::empty());
        assert(pieces(without_spaces(cell@.take(0))).drop_last() =~= Seq::<Seq<char>>::empty());
    }
    for c in it: cell.chars()
        invariant
            it.seq() == cell@,
            pieces(without_spaces(cell@.take(it.index() as int))).len() >= 1,
            texts(out@) == nonempty(
                pieces(without_spaces(cell@.take(it.index() as int))).drop_last(),
            ),
            cur@ == pieces(without_spaces(cell@.take(it.index() as int))).last(),
    {
        let ghost i = it.index() as int;
        let ghost seen = without_spaces(cell@.take(i));
        proof {
            assert(cell@.take(i + 1).drop_last() == cell@.take(i));
            assert(cell@.take(i + 1).last() == c);
            lemma_pieces_len(without_spaces(cell@.take(i + 1)));
        }
        if c == ' ' {
        } else if c == ',' {
            proof {
                assert(seen.push(c).drop_last() == seen);
                assert(pieces(seen).push(Seq::empty()).drop_last() == pieces(seen));
            }
            if !cur.as_str().is_empty() {
                proof {
                    assert(texts(out@.push(cur)) =~= texts(out@).push(cur@));
                }
                out.push(cur);
            }
            cur = String::new();
        } else {
            proof {
                assert(seen.push(c).drop_last() == seen);
                let before = pieces(seen);
                assert(before.drop_last().push(before.last().push(c)).drop_last()
                    == before.drop_last());
            }
            push_char(&mut cur, c);
        }
    }
    proof {
        assert(cell@.take(cell@.len() as int) == cell@);
    }
    if !cur.as_str().is_empty() {
        proof {
            assert(texts(out@.push(cur)) =~= texts(out@).push(cur@));
        }
        out.push(cur);
    }
    out
}

/// Whether `c` occurs nowhere in `s`.
pub open spec fn free_of(s: Seq<char>, c: char) -> bool {
    forall|i: int| 0 <= i < s.len() ==> s[i] != c
}

/// Stripping leaves no space, and brings in no character that was not there.
pub proof fn lemma_without_spaces(s: Seq<char>, c: char)
    ensures
        free_of(without_spaces(s), ' '),
        free_of(s, c) ==> free_of(without_spaces(s), c),
    decreases s.len(),
{
    if s.len() > 0 {
        lemma_without_spaces(s.drop_last(), c);
    }
}

/// No piece holds a comma, and a character absent from the text is absent
/// from each piece.
pub proof fn lemma_pieces_chars(s: Seq<char>, c: char)
    ensures
        forall|i: int| 0 <= i < pieces(s).len() ==> free_of(#[trigger] pieces(s)[i], ','),
        free_of(s, c) ==> forall|i: int|
            0 <= i < pieces(s).len() ==> free_of(#[trigger] pieces(s)[i], c),
    decreases s.len(),
{
    if s.len() > 0 {
        lemma_pieces_chars(s.drop_last(), c);
        lemma_pieces_len(s.drop_last());
        let before = pieces(s.drop_last());
        assert(free_of(before.last(), ','));
        if free_of(s, c) {
            assert(free_of(s.drop_last(), c));
            assert(free_of(before.last(), c));
            assert(s.last() != c);
        }
    }
}

/// Each member that is kept is a non-empty member of `fs`.
pub proof fn lemma_nonempty_members(fs: Seq<Seq<char>>)
    ensures
        forall|i: int|
            0 <= i < nonempty(fs).len() ==> (#[trigger] nonempty(fs)[i]).len() > 0
                && fs.contains(nonempty(fs)[i]),
    decreases fs.len(),
{
    if fs.len() > 0 {
        lemma_nonempty_members(fs.drop_last());
        let before = nonempty(fs.drop_last());
        assert forall|i: int| 0 <= i < nonempty(fs).len() implies (#[trigger] nonempty(
            fs,
        )[i]).len() > 0 && fs.contains(nonempty(fs)[i]) by {
            if i < before.len() {
                let j = choose|j: int| 0 <= j < fs.drop_last().len() && fs.drop_last()[j] == before[i];
                assert(fs[j] == before[i]);
            } else {
                assert(fs[fs.len() - 1] == fs.last());
            }
        }
    }
}

/// Every value of a cell is non-empty and holds neither a space nor a comma.
pub proof fn lemma_fragments_clean(cell: Seq<char>)
    ensures
        forall|i: int|
            0 <= i < fragments(cell).len() ==> {
                &&& (#[trigger] fragments(cell)[i]).len() > 0
                &&& free_of(fragments(cell)[i], ' ')
                &&& free_of(fragments(cell)[i], ',')
            },
{
    let stripped = without_spaces(cell);
    lemma_without_spaces(cell, ' ');
    lemma_pieces_chars(stripped, ' ');
    lemma_nonempty_members(pieces(stripped));
    assert forall|i: int| 0 <= i < fragments(cell).len() implies {
        &&& (#[trigger] fragments(cell)[i]).len() > 0
        &&& free_of(fragments(cell)[i], ' ')
        &&& free_of(fragments(cell)[i], ',')
    } by {
        let f = fragments(cell)[i];
        let j = choose|j: int| 0 <= j < pieces(stripped).len() && pieces(stripped)[j] == f;
        assert(free_of(pieces(stripped)[j], ' '));
        assert(free_of(pieces(stripped)[j], ','));
    }
}

/// Collapsing keeps exactly the values that occur, each once.
pub proof fn lemma_distinct(fs: Seq<Seq<char>>)
    ensures
        distinct(fs).no_duplicates(),
        forall|x: Seq<char>|
            #![trigger distinct(fs).contains(x)]
            #![trigger fs.contains(x)]
            distinct(fs).contains(x) <==> fs.contains(x),
        distinct(fs).len() <= fs.len(),
    decreases fs.len(),
{
    if fs.len() > 0 {
        let init = fs.drop_last();
        lemma_distinct(init);
        let before = distinct(init);
        let out = distinct(fs);
        assert forall|x: Seq<char>| out.contains(x) <==> fs.contains(x) by {
            if out.contains(x) {
                let i = choose|i: int| 0 <= i < out.len() && out[i] == x;
                if i < before.len() {
                    assert(before[i] == x);
                    assert(before.contains(x));
                    assert(init.contains(x));
                    let j = choose|j: int| 0 <= j < init.len() && init[j] == x;
                    assert(fs[j] == x);
                } else {
                    assert(fs[fs.len() - 1] == x);
                }
            }
            if fs.contains(x) {
                let j = choose|j: int| 0 <= j < fs.len() && fs[j] == x;
                if j < init.len() {
                    assert(init[j] == x);
                    assert(init.contains(x));
                    assert(before.contains(x));
                    let i = choose|i: int| 0 <= i < before.len() && before[i] == x;
                    assert(out[i] == x);
                } else {
                    assert(x == fs.last());
                    if before.contains(x) {
                    } else {
                        assert(out[out.len() - 1] == x);
                    }
                }
            }
        }
    }
}

/// Whether `values` holds a string equal to `s`.
pub fn holds(values: &Vec<String>, s: &String) -> (found: bool)
    ensures
        found == texts(values@).contains(s@),
{
    let mut i: usize = 0;
    while i < values.len()
        invariant
            i <= values.len(),
            forall|j: int| 0 <= j < i ==> texts(values@)[j] != s@,
        decreases values.len() - i,
    {
        if values[i] == *s {
            assert(texts(values@)[i as int] == s@);
            return true;
        }
        i += 1;
    }
    false
}

/// Collapses repeated values: the first occurrence of each stays, in order.
pub fn collapse(values: &Vec<String>) -> (out: Vec<String>)
    ensures
        texts(out@) == distinct(texts(values@)),
        texts(out@).no_duplicates(),
        forall|x: Seq<char>| texts(out@).contains(x) <==> texts(values@).contains(x),
{
    let mut out: Vec<String> = Vec::new();
    let mut i: usize = 0;
    proof {
        assert(texts(values@).take(0).len() == 0);
        assert(texts(out@) =~= Seq::<Seq<char>>::empty());
    }
    while i < values.len()
        invariant
            i <= values.len(),
            texts(out@) == distinct(texts(values@).take(i as int)),
        decreases values.len() - i,
    {
        proof {
            assert(texts(values@).take(i + 1).drop_last() == texts(values@).take(i as int));
            assert(texts(values@).take(i + 1).last() == values@[i as int]@);
        }
        if !holds(&out, &values[i]) {
            let v: String = values[i].clone();
            proof {
                assert(texts(out@.push(v)) =~= texts(out@).push(v@));
            }
            out.push(v);
        }
        i += 1;
    }
    proof {
        assert(texts(values@).take(values.len() as int) == texts(values@));
        lemma_distinct(texts(values@));
    }
    out
}

/// The set of values that a cell lists, in the order of first occurrence:
/// no value occurs twice, and none is empty or holds a space.
pub fn cell_values(cell: &str) -> (out: Vec<String>)
    ensures
        texts(out@) == value_set(cell@),
        is_value_set(texts(out@)),
{
    let all: Vec<String> = split_fragments(cell);
    let out: Vec<String> = collapse(&all);
    proof {
        lemma_fragments_clean(cell@);
        assert forall|i: int| 0 <= i < out.len() implies (#[trigger] texts(out@)[i]).len() > 0
            && free_of(texts(out@)[i], ' ') by {
            let x = texts(out@)[i];
            assert(texts(out@).contains(x));
            assert(fragments(cell@).contains(x));
            let j = choose|j: int| 0 <= j < fragments(cell@).len() && fragments(cell@)[j] == x;
            assert(fragments(cell@)[j].len() > 0);
        }
    }
    out
}

} // verus!
