//! The mapping document: a template in which six placeholders stand for the
//! paths of the files written and of the files that the mapping engine will
//! write.

use crate::text::{chars_of, free_of};
use vstd::prelude::*;

verus! {

/// The paths that the placeholders stand for.
#[derive(Clone, Debug, PartialEq, Eq)]
pub struct OutputPaths {
    pub shapes_csv: String,
    pub shapes_ttl: String,
    pub states_csv: String,
    pub states_ttl: String,
    pub steps_json: String,
    pub steps_ttl: String,
}

impl OutputPaths {
    /// The names of the six files, without a directory: the three that are
    /// written here, and the three that the mapping engine will write.
    pub fn file_names() -> (names: OutputPaths)
        ensures
            names.shapes_csv@ == "shapes.csv"@,
            names.shapes_ttl@ == "shapes.ttl"@,
            names.states_csv@ == "states.csv"@,
            names.states_ttl@ == "states.ttl"@,
            names.steps_json@ == "steps.json"@,
            names.steps_ttl@ == "steps.ttl"@,
    {
        OutputPaths {
            shapes_csv: String::from_str("shapes.csv"),
            shapes_ttl: String::from_str("shapes.ttl"),
            states_csv: String::from_str("states.csv"),
            states_ttl: String::from_str("states.ttl"),
            steps_json: String::from_str("steps.json"),
            steps_ttl: String::from_str("steps.ttl"),
        }
    }
}

/// Whether `pat` stands in `text` at index `i`.
pub open spec fn occurs_at(text: Seq<char>, pat: Seq<char>, i: int) -> bool {
    0 <= i && i + pat.len() <= text.len() && text.subrange(i, i + pat.len()) == pat
}

/// Whether `i` is the first index at which `pat` stands in `text`.
pub open spec fn first_occurrence(text: Seq<char>, pat: Seq<char>, i: int) -> bool {
    occurs_at(text, pat, i) && forall|j: int| 0 <= j < i ==> !occurs_at(text, pat, j)
}

/// `text` with the first occurrence of `pat` replaced by `to`; `text` itself
/// where `pat` does not occur.
pub open spec fn replace_first(text: Seq<char>, pat: Seq<char>, to: Seq<char>) -> Seq<char> {
    if exists|i: int| first_occurrence(text, pat, i) {
        let i = choose|i: int| first_occurrence(text, pat, i);
        text.take(i) + to + text.skip(i + pat.len())
    } else {
        text
    }
}

/// The template with the first occurrence of each placeholder replaced by
/// its path, the placeholders taken in the order of the fields.
pub open spec fn resolved(
    template: Seq<char>,
    shapes_csv: Seq<char>,
    shapes_ttl: Seq<char>,
    states_csv: Seq<char>,
    states_ttl: Seq<char>,
    steps_json: Seq<char>,
    steps_ttl: Seq<char>,
) -> Seq<char> {
    let t1 = replace_first(template, "@@SHAPES.CSV@@"@, shapes_csv);
    let t2 = replace_first(t1, "@@SHAPES.TTL@@"@, shapes_ttl);
    let t3 = replace_first(t2, "@@STATES.CSV@@"@, states_csv);
    let t4 = replace_first(t3, "@@STATES.TTL@@"@, states_ttl);
    let t5 = replace_first(t4, "@@STEPS.JSON@@"@, steps_json);
    replace_first(t5, "@@STEPS.TTL@@"@, steps_ttl)
}

/// A text has one first occurrence of a pattern at most.
pub proof fn lemma_first_occurrence_unique(text: Seq<char>, pat: Seq<char>, i: int, j: int)
    requires
        first_occurrence(text, pat, i),
        first_occurrence(text, pat, j),
    ensures
        i == j,
{
}

/// A text in which the pattern does not occur stays as it is.
pub proof fn lemma_replace_absent(text: Seq<char>, pat: Seq<char>, to: Seq<char>)
    requires
        forall|i: int| !occurs_at(text, pat, i),
    ensures
        replace_first(text, pat, to) == text,
{
}

/// The six placeholders, in the order in which they are replaced.
pub open spec fn placeholders() -> Seq<Seq<char>> {
    seq![
        "@@SHAPES.CSV@@"@,
        "@@SHAPES.TTL@@"@,
        "@@STATES.CSV@@"@,
        "@@STATES.TTL@@"@,
        "@@STEPS.JSON@@"@,
        "@@STEPS.TTL@@"@,
    ]
}

/// A text of the placeholders' kind: it begins with `@` and holds no `/`.
pub open spec fn is_marker(q: Seq<char>) -> bool {
    q.len() > 0 && q[0] == '@' && free_of(q, '/')
}

/// A text of an absolute path's kind: it begins with `/` and holds no `@`.
pub open spec fn is_plain_path(p: Seq<char>) -> bool {
    p.len() > 0 && p[0] == '/' && free_of(p, '@')
}

/// Whether `q` occurs nowhere in `text`.
pub open spec fn absent(text: Seq<char>, q: Seq<char>) -> bool {
    forall|k: int| !occurs_at(text, q, k)
}

/// Whether `q` occurs in `text` at one index at most.
pub open spec fn at_most_once(text: Seq<char>, q: Seq<char>) -> bool {
    forall|a: int, b: int| occurs_at(text, q, a) && occurs_at(text, q, b) ==> a == b
}

/// A pattern that occurs has a first occurrence.
pub proof fn lemma_first_exists(text: Seq<char>, pat: Seq<char>, k: int)
    requires
        occurs_at(text, pat, k),
    ensures
        exists|i: int| first_occurrence(text, pat, i),
    decreases k,
{
    if forall|j: int| 0 <= j < k ==> !occurs_at(text, pat, j) {
        assert(first_occurrence(text, pat, k));
    } else {
        let j = choose|j: int| 0 <= j < k && occurs_at(text, pat, j);
        lemma_first_exists(text, pat, j);
    }
}

/// Where a path has been written over the pattern at `i`, a marker that
/// stands in the new text stands clear of the path: before it, where it
/// stood already, or behind it, where it stood further to the left or right
/// by the difference of the two lengths.
proof fn lemma_occurrence_origin(
    text: Seq<char>,
    pat: Seq<char>,
    to: Seq<char>,
    i: int,
    q: Seq<char>,
    k: int,
)
    requires
        occurs_at(text, pat, i),
        is_plain_path(to),
        is_marker(q),
        occurs_at(text.take(i) + to + text.skip(i + pat.len()), q, k),
    ensures
        (k + q.len() <= i && occurs_at(text, q, k)) || (k >= i + to.len() && occurs_at(
            text,
            q,
            k - to.len() + pat.len(),
        )),
{
    let res = text.take(i) + to + text.skip(i + pat.len());
    let found = res.subrange(k, k + q.len());
    if i <= k < i + to.len() {
        assert(found[0] == res[k]);
        assert(res[k] == to[k - i]);
        assert(false);
    } else if k < i && k + q.len() > i {
        assert(found[i - k] == res[i]);
        assert(res[i] == to[0]);
        assert(q[i - k] == '/');
        assert(false);
    } else if k + q.len() <= i {
        assert(text.subrange(k, k + q.len()) =~= found);
    } else {
        let o = k - to.len() + pat.len();
        assert forall|j: int| 0 <= j < q.len() implies text.subrange(o, o + q.len())[j]
            == found[j] by {
            assert(found[j] == res[k + j]);
            assert(res[k + j] == text.skip(i + pat.len())[k + j - i - to.len()]);
        }
        assert(text.subrange(o, o + q.len()) =~= found);
    }
}

/// Replacing the first occurrence of a marker by a path brings in no
/// occurrence of any marker, and takes out the marker itself where it
/// occurred once at most.
pub proof fn lemma_replace_brings_no_marker(
    text: Seq<char>,
    pat: Seq<char>,
    to: Seq<char>,
    q: Seq<char>,
)
    requires
        is_marker(pat),
        is_plain_path(to),
        is_marker(q),
    ensures
        absent(text, q) ==> absent(replace_first(text, pat, to), q),
        at_most_once(text, q) ==> at_most_once(replace_first(text, pat, to), q),
        at_most_once(text, pat) ==> absent(replace_first(text, pat, to), pat),
{
    let res = replace_first(text, pat, to);
    if exists|i: int| first_occurrence(text, pat, i) {
        let i = choose|i: int| first_occurrence(text, pat, i);
        let m = pat.len();
        let shift = to.len() - m;
        assert forall|k: int| occurs_at(res, q, k) implies (k + q.len() <= i && occurs_at(
            text,
            q,
            k,
        )) || (k >= i + to.len() && occurs_at(text, q, k - shift)) by {
            lemma_occurrence_origin(text, pat, to, i, q, k);
        }
        assert forall|k: int| occurs_at(res, pat, k) implies (k + m <= i && occurs_at(
            text,
            pat,
            k,
        )) || (k >= i + to.len() && occurs_at(text, pat, k - shift)) by {
            lemma_occurrence_origin(text, pat, to, i, pat, k);
        }
        if at_most_once(text, q) {
            assert forall|a: int, b: int| occurs_at(res, q, a) && occurs_at(res, q, b) implies a
                == b by {
                let oa = if a + q.len() <= i { a } else { a - shift };
                let ob = if b + q.len() <= i { b } else { b - shift };
                assert(occurs_at(text, q, oa) && occurs_at(text, q, ob));
                assert(oa == ob);
            }
        }
        if at_most_once(text, pat) {
            assert forall|k: int| !occurs_at(res, pat, k) by {
                if occurs_at(res, pat, k) {
                    let o = if k + m <= i { k } else { k - shift };
                    assert(occurs_at(text, pat, o) && occurs_at(text, pat, i));
                    assert(o == i);
                }
            }
        }
    } else {
        if at_most_once(text, pat) {
            assert forall|k: int| !occurs_at(text, pat, k) by {
                if occurs_at(text, pat, k) {
                    lemma_first_exists(text, pat, k);
                }
            }
        }
    }
}

/// Each placeholder begins with `@` and holds no `/`.
pub proof fn lemma_placeholders_are_markers()
    ensures
        placeholders().len() == 6,
        forall|j: int| 0 <= j < 6 ==> is_marker(#[trigger] placeholders()[j]),
{
    reveal_strlit("@@SHAPES.CSV@@");
    reveal_strlit("@@SHAPES.TTL@@");
    reveal_strlit("@@STATES.CSV@@");
    reveal_strlit("@@STATES.TTL@@");
    reveal_strlit("@@STEPS.JSON@@");
    reveal_strlit("@@STEPS.TTL@@");
}

/// Each placeholder occurs once at most, and the first `done` of them not at
/// all.
pub open spec fn settled(text: Seq<char>, done: int) -> bool {
    forall|j: int|
        0 <= j < 6 ==> at_most_once(text, #[trigger] placeholders()[j]) && (j < done ==> absent(
            text,
            placeholders()[j],
        ))
}

proof fn lemma_settle_next(text: Seq<char>, to: Seq<char>, n: int)
    requires
        0 <= n < 6,
        settled(text, n),
        is_plain_path(to),
    ensures
        settled(replace_first(text, placeholders()[n], to), n + 1),
{
    lemma_placeholders_are_markers();
    let pat = placeholders()[n];
    let res = replace_first(text, pat, to);
    assert forall|j: int| 0 <= j < 6 implies at_most_once(res, #[trigger] placeholders()[j]) && (j
        < n + 1 ==> absent(res, placeholders()[j])) by {
        lemma_replace_brings_no_marker(text, pat, to, placeholders()[j]);
    }
}

/// Where the template holds each placeholder once at most, and each path
/// begins with `/` and holds no `@`, the resolved text holds none of the
/// placeholders.
pub proof fn lemma_resolved_holds_no_placeholder(template: Seq<char>, paths: Seq<Seq<char>>)
    requires
        paths.len() == 6,
        forall|j: int| 0 <= j < 6 ==> is_plain_path(#[trigger] paths[j]),
        forall|j: int| 0 <= j < 6 ==> at_most_once(template, #[trigger] placeholders()[j]),
    ensures
        forall|j: int|
            0 <= j < 6 ==> absent(
                resolved(template, paths[0], paths[1], paths[2], paths[3], paths[4], paths[5]),
                #[trigger] placeholders()[j],
            ),
{
    let t1 = replace_first(template, placeholders()[0], paths[0]);
    let t2 = replace_first(t1, placeholders()[1], paths[1]);
    let t3 = replace_first(t2, placeholders()[2], paths[2]);
    let t4 = replace_first(t3, placeholders()[3], paths[3]);
    let t5 = replace_first(t4, placeholders()[4], paths[4]);
    let t6 = replace_first(t5, placeholders()[5], paths[5]);
    assert(settled(template, 0));
    lemma_settle_next(template, paths[0], 0);
    lemma_settle_next(t1, paths[1], 1);
    lemma_settle_next(t2, paths[2], 2);
    lemma_settle_next(t3, paths[3], 3);
    lemma_settle_next(t4, paths[4], 4);
    lemma_settle_next(t5, paths[5], 5);
    assert(t6 == resolved(template, paths[0], paths[1], paths[2], paths[3], paths[4], paths[5]));
}

/// Whether `q` occurs somewhere in `text`.
pub open spec fn present(text: Seq<char>, q: Seq<char>) -> bool {
    exists|k: int| occurs_at(text, q, k)
}

/// Whether no two occurrences of different placeholders in `text` share a
/// character.
pub open spec fn apart(text: Seq<char>) -> bool {
    forall|j1: int, j2: int, a: int, b: int|
        0 <= j1 < 6 && 0 <= j2 < 6 && j1 != j2 && #[trigger] occurs_at(
            text,
            placeholders()[j1],
            a,
        ) && #[trigger] occurs_at(text, placeholders()[j2], b) ==> a + placeholders()[j1].len()
            <= b || b + placeholders()[j2].len() <= a
}

/// A path and a marker that both stand in a text share no character.
proof fn lemma_path_clear_of_marker(
    text: Seq<char>,
    pat: Seq<char>,
    i: int,
    p: Seq<char>,
    k: int,
)
    requires
        is_marker(pat),
        is_plain_path(p),
        occurs_at(text, pat, i),
        occurs_at(text, p, k),
    ensures
        k + p.len() <= i || i + pat.len() <= k,
{
    if k <= i < k + p.len() {
        assert(text.subrange(i, i + pat.len())[0] == text[i]);
        assert(text.subrange(k, k + p.len())[i - k] == text[i]);
        assert(false);
    } else if i < k < i + pat.len() {
        assert(text.subrange(k, k + p.len())[0] == text[k]);
        assert(text.subrange(i, i + pat.len())[k - i] == text[k]);
        assert(false);
    }
}

/// What stands clear of the pattern at `i` stands in the new text too: in
/// its place where it stood before the pattern, moved by the difference of
/// the lengths where it stood behind it.
proof fn lemma_occurrence_kept(
    text: Seq<char>,
    pat: Seq<char>,
    to: Seq<char>,
    i: int,
    q: Seq<char>,
    k: int,
)
    requires
        occurs_at(text, pat, i),
        occurs_at(text, q, k),
        k + q.len() <= i || i + pat.len() <= k,
    ensures
        occurs_at(
            text.take(i) + to + text.skip(i + pat.len()),
            q,
            if k + q.len() <= i {
                k
            } else {
                k + to.len() - pat.len()
            },
        ),
{
    let res = text.take(i) + to + text.skip(i + pat.len());
    if k + q.len() <= i {
        assert(res.subrange(k, k + q.len()) =~= text.subrange(k, k + q.len()));
    } else {
        let n = k + to.len() - pat.len();
        let got = res.subrange(n, n + q.len());
        let had = text.subrange(k, k + q.len());
        assert forall|j: int| 0 <= j < q.len() implies #[trigger] got[j] == had[j] by {
            assert(res[n + j] == text.skip(i + pat.len())[n + j - i - to.len()]);
        }
        assert(got =~= had);
    }
}

/// The placeholders from `done` on, and the paths written for those before
/// it, all occur, and no two placeholders share a character.
pub open spec fn carried(text: Seq<char>, paths: Seq<Seq<char>>, done: int) -> bool {
    &&& apart(text)
    &&& forall|j: int| done <= j < 6 ==> present(text, #[trigger] placeholders()[j])
    &&& forall|j: int| 0 <= j < done ==> present(text, #[trigger] paths[j])
}

proof fn lemma_carry_next(text: Seq<char>, paths: Seq<Seq<char>>, n: int)
    requires
        0 <= n < 6,
        paths.len() == 6,
        forall|j: int| 0 <= j < 6 ==> is_plain_path(#[trigger] paths[j]),
        carried(text, paths, n),
    ensures
        carried(replace_first(text, placeholders()[n], paths[n]), paths, n + 1),
{
    lemma_placeholders_are_markers();
    let pat = placeholders()[n];
    let to = paths[n];
    let k0 = choose|k: int| occurs_at(text, pat, k);
    lemma_first_exists(text, pat, k0);
    let i = choose|i: int| first_occurrence(text, pat, i);
    let res = text.take(i) + to + text.skip(i + pat.len());
    assert(res == replace_first(text, pat, to));
    assert forall|j: int| n + 1 <= j < 6 implies present(res, #[trigger] placeholders()[j]) by {
        let q = placeholders()[j];
        let k = choose|k: int| occurs_at(text, q, k);
        lemma_occurrence_kept(text, pat, to, i, q, k);
    }
    assert forall|j: int| 0 <= j < n + 1 implies present(res, #[trigger] paths[j]) by {
        if j < n {
            let p = paths[j];
            let k = choose|k: int| occurs_at(text, p, k);
            lemma_path_clear_of_marker(text, pat, i, p, k);
            lemma_occurrence_kept(text, pat, to, i, p, k);
        } else {
            assert(res.subrange(i, i + to.len()) =~= to);
            assert(occurs_at(res, to, i));
        }
    }
    assert forall|j1: int, j2: int, a: int, b: int|
        0 <= j1 < 6 && 0 <= j2 < 6 && j1 != j2 && #[trigger] occurs_at(
            res,
            placeholders()[j1],
            a,
        ) && #[trigger] occurs_at(res, placeholders()[j2], b) implies a + placeholders()[j1].len()
        <= b || b + placeholders()[j2].len() <= a by {
        lemma_occurrence_origin(text, pat, to, i, placeholders()[j1], a);
        lemma_occurrence_origin(text, pat, to, i, placeholders()[j2], b);
    }
}

/// Where every placeholder occurs in the template, no two of them share a
/// character, and each path begins with `/` and holds no `@`, the resolved
/// text holds each of the six paths.
pub proof fn lemma_resolved_holds_paths(template: Seq<char>, paths: Seq<Seq<char>>)
    requires
        paths.len() == 6,
        forall|j: int| 0 <= j < 6 ==> is_plain_path(#[trigger] paths[j]),
        forall|j: int| 0 <= j < 6 ==> present(template, #[trigger] placeholders()[j]),
        apart(template),
    ensures
        forall|j: int|
            0 <= j < 6 ==> present(
                resolved(template, paths[0], paths[1], paths[2], paths[3], paths[4], paths[5]),
                #[trigger] paths[j],
            ),
{
    let t1 = replace_first(template, placeholders()[0], paths[0]);
    let t2 = replace_first(t1, placeholders()[1], paths[1]);
    let t3 = replace_first(t2, placeholders()[2], paths[2]);
    let t4 = replace_first(t3, placeholders()[3], paths[3]);
    let t5 = replace_first(t4, placeholders()[4], paths[4]);
    let t6 = replace_first(t5, placeholders()[5], paths[5]);
    assert(carried(template, paths, 0));
    lemma_carry_next(template, paths, 0);
    lemma_carry_next(t1, paths, 1);
    lemma_carry_next(t2, paths, 2);
    lemma_carry_next(t3, paths, 3);
    lemma_carry_next(t4, paths, 4);
    lemma_carry_next(t5, paths, 5);
    assert(t6 == resolved(template, paths[0], paths[1], paths[2], paths[3], paths[4], paths[5]));
}

fn matches_at(text: &Vec<char>, pat: &Vec<char>, i: usize) -> (found: bool)
    requires
        i + pat.len() <= text.len(),
    ensures
        found == occurs_at(text@, pat@, i as int),
{
    let mut k: usize = 0;
    while k < pat.len()
        invariant
            k <= pat.len(),
            i + pat.len() <= text.len(),
            forall|j: int| 0 <= j < k ==> text[i + j] == pat[j],
        decreases pat.len() - k,
    {
        if text[i + k] != pat[k] {
            assert(text@.subrange(i as int, i + pat.len())[k as int] != pat@[k as int]);
            return false;
        }
        k += 1;
    }
    assert(text@.subrange(i as int, i + pat.len()) =~= pat@);
    true
}

/// The first index at which `pat` stands in `text`, if it stands anywhere.
pub fn find_first(text: &Vec<char>, pat: &Vec<char>) -> (found: Option<usize>)
    ensures
        match found {
            Some(i) => first_occurrence(text@, pat@, i as int),
            None => forall|i: int| !occurs_at(text@, pat@, i),
        },
{
    if pat.len() > text.len() {
        return None;
    }
    let last: usize = text.len() - pat.len();
    let mut i: usize = 0;
    while i < last
        invariant
            last + pat.len() == text.len(),
            i <= last,
            forall|j: int| 0 <= j < i ==> !occurs_at(text@, pat@, j),
        decreases last - i,
    {
        if matches_at(text, pat, i) {
            return Some(i);
        }
        i += 1;
    }
    if matches_at(text, pat, last) {
        Some(last)
    } else {
        None
    }
}

/// Replaces the first occurrence of `pat` in `text` by `to`.
pub fn replace_first_in(text: &str, pat: &str, to: &str) -> (out: String)
    ensures
        out@ == replace_first(text@, pat@, to@),
{
    let text_chars: Vec<char> = chars_of(text);
    let pat_chars: Vec<char> = chars_of(pat);
    match find_first(&text_chars, &pat_chars) {
        Some(i) => {
            proof {
                let j = choose|j: int| first_occurrence(text@, pat@, j);
                lemma_first_occurrence_unique(text@, pat@, i as int, j);
                assert(occurs_at(text_chars@, pat_chars@, i as int));
                assert(i + pat_chars@.len() <= text_chars@.len());
            }
            let n: usize = text_chars.len();
            let cut: usize = i + pat_chars.len();
            let mut out: String = String::from_str(text.substring_char(0, i));
            out.append(to);
            out.append(text.substring_char(cut, n));
            proof {
                assert(out@ =~= text@.take(i as int) + to@ + text@.skip(i + pat@.len()));
            }
            out
        },
        None => String::from_str(text),
    }
}

/// Writes the paths into the template: each placeholder is replaced once, at
/// its first occurrence.
pub fn resolve_mapping(template: &str, paths: &OutputPaths) -> (out: String)
    ensures
        out@ == resolved(
            template@,
            paths.shapes_csv@,
            paths.shapes_ttl@,
            paths.states_csv@,
            paths.states_ttl@,
            paths.steps_json@,
            paths.steps_ttl@,
        ),
{
    let t1: String = replace_first_in(template, "@@SHAPES.CSV@@", paths.shapes_csv.as_str());
    let t2: String = replace_first_in(t1.as_str(), "@@SHAPES.TTL@@", paths.shapes_ttl.as_str());
    let t3: String = replace_first_in(t2.as_str(), "@@STATES.CSV@@", paths.states_csv.as_str());
    let t4: String = replace_first_in(t3.as_str(), "@@STATES.TTL@@", paths.states_ttl.as_str());
    let t5: String = replace_first_in(t4.as_str(), "@@STEPS.JSON@@", paths.steps_json.as_str());
    replace_first_in(t5.as_str(), "@@STEPS.TTL@@", paths.steps_ttl.as_str())
}

/// The name of the directory that holds what is written for an input file
/// with this stem.
pub fn output_dir_name(stem: &str) -> (out: String)
    ensures
        out@ == stem@ + "_output"@,
{
    let mut out: String = String::from_str(stem);
    out.append("_output");
    out
}

} // verus!
