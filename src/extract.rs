use vstd::prelude::*;
use crate::knowns::lemma_runs_join;

verus! {

/// The texts of a list of strings.
pub open spec fn views(v: Seq<String>) -> Seq<Seq<char>> {
    v.map_values(|x: String| x@)
}

/// A character of a name: an ASCII letter or `'_'`.
pub open spec fn is_ident_char(c: char) -> bool {
    ('a' <= c && c <= 'z') || ('A' <= c && c <= 'Z') || c == '_'
}

/// `cur` as a list of runs: none when it is empty.
pub open spec fn run_if_any(cur: Seq<char>) -> Seq<Seq<char>> {
    if cur.len() > 0 { seq![cur] } else { Seq::empty() }
}

/// The maximal runs of name characters in `s`, from the left, where `cur`
/// is the run just before `s`.
pub open spec fn runs_from(s: Seq<char>, cur: Seq<char>) -> Seq<Seq<char>>
    decreases s.len(),
{
    if s.len() == 0 {
        run_if_any(cur)
    } else if is_ident_char(s[0]) {
        runs_from(s.drop_first(), cur.push(s[0]))
    } else {
        run_if_any(cur) + runs_from(s.drop_first(), Seq::empty())
    }
}

/// The identifier runs of `s` in order, repeats kept.
pub open spec fn ident_runs(s: Seq<char>) -> Seq<Seq<char>> {
    runs_from(s, Seq::empty())
}

/// Whether `w` could be a name: non-empty, of name characters only.
pub open spec fn is_name(w: Seq<char>) -> bool {
    w.len() > 0 && forall|i: int| 0 <= i < w.len() ==> is_ident_char(#[trigger] w[i])
}

pub proof fn lemma_runs_are_names(s: Seq<char>, cur: Seq<char>)
    requires
        forall|i: int| 0 <= i < cur.len() ==> is_ident_char(#[trigger] cur[i]),
    ensures
        forall|k: int| 0 <= k < runs_from(s, cur).len() ==> is_name(#[trigger] runs_from(s, cur)[k]),
    decreases s.len(),
{
    if cur.len() > 0 {
        assert(is_name(cur));
        assert(run_if_any(cur)[0] == cur);
    }
    if s.len() == 0 {
        assert(runs_from(s, cur) == run_if_any(cur));
        assert forall|k: int| 0 <= k < run_if_any(cur).len() implies is_name(#[trigger] run_if_any(cur)[k]) by {
            assert(k == 0 && run_if_any(cur)[k] == cur);
        }
    } else if is_ident_char(s[0]) {
        let c2 = cur.push(s[0]);
        assert forall|i: int| 0 <= i < c2.len() implies is_ident_char(#[trigger] c2[i]) by {
            if i < cur.len() {
                assert(c2[i] == cur[i]);
            }
        }
        lemma_runs_are_names(s.drop_first(), c2);
        assert(runs_from(s, cur) == runs_from(s.drop_first(), c2));
    } else {
        lemma_runs_are_names(s.drop_first(), Seq::empty());
        let a = run_if_any(cur);
        let b = runs_from(s.drop_first(), Seq::empty());
        assert(runs_from(s, cur) == a + b);
        assert forall|k: int| 0 <= k < (a + b).len() implies is_name(#[trigger] (a + b)[k]) by {
            if k >= a.len() {
                assert((a + b)[k] == b[k - a.len()]);
            } else {
                assert((a + b)[k] == a[k]);
            }
        }
    }
}

/// Runs do not reach across a character that is not a name character.
pub proof fn lemma_runs_split(a: Seq<char>, c: char, b: Seq<char>, cur: Seq<char>)
    requires
        !is_ident_char(c),
    ensures
        runs_from(a + seq![c] + b, cur) == runs_from(a, cur) + runs_from(b, Seq::empty()),
    decreases a.len(),
{
    let t = a + seq![c] + b;
    if a.len() == 0 {
        assert(t[0] == c);
        assert(t.drop_first() =~= b);
    } else {
        assert(t[0] == a[0]);
        assert(t.drop_first() =~= a.drop_first() + seq![c] + b);
        if is_ident_char(a[0]) {
            lemma_runs_split(a.drop_first(), c, b, cur.push(a[0]));
        } else {
            lemma_runs_split(a.drop_first(), c, b, Seq::empty());
            assert(run_if_any(cur) + (runs_from(a.drop_first(), Seq::empty()) + runs_from(b, Seq::empty()))
                =~= (run_if_any(cur) + runs_from(a.drop_first(), Seq::empty())) + runs_from(b, Seq::empty()));
        }
    }
}

/// The names of `ws` written one after another, separated by single spaces.
pub open spec fn joined(ws: Seq<Seq<char>>) -> Seq<char>
    decreases ws.len(),
{
    if ws.len() == 0 {
        Seq::empty()
    } else if ws.len() == 1 {
        ws[0]
    } else {
        ws[0] + seq![' '] + joined(ws.drop_first())
    }
}

/// Names written apart by spaces are found again as they were.
pub proof fn lemma_runs_of_joined(ws: Seq<Seq<char>>)
    requires
        forall|i: int| 0 <= i < ws.len() ==> is_name(#[trigger] ws[i]),
    ensures
        ident_runs(joined(ws)) == ws,
    decreases ws.len(),
{
    let empty = Seq::<char>::empty();
    if ws.len() == 0 {
        assert(ident_runs(joined(ws)) =~= ws);
    } else {
        let w = ws[0];
        assert(is_name(w));
        lemma_runs_join(w, empty, empty);
        assert(w + empty =~= w);
        assert(empty + w =~= w);
        assert(runs_from(empty, w) == seq![w]);
        if ws.len() == 1 {
            assert(ident_runs(joined(ws)) =~= ws);
        } else {
            let rest = ws.drop_first();
            assert forall|i: int| 0 <= i < rest.len() implies is_name(#[trigger] rest[i]) by {
                assert(rest[i] == ws[i + 1]);
            }
            lemma_runs_of_joined(rest);
            lemma_runs_split(w, ' ', joined(rest), empty);
            assert(seq![w] + rest =~= ws);
        }
    }
}

/// Extracting again from the extracted names, written apart by spaces,
/// gives the same names in the same order.
pub proof fn lemma_extract_idempotent(text: Seq<char>)
    ensures
        names_of(joined(names_of(text))) == names_of(text),
{
    let ns = names_of(text);
    lemma_dedup_props(ident_runs(text));
    lemma_runs_are_names(text, Seq::empty());
    assert forall|i: int| 0 <= i < ns.len() implies is_name(#[trigger] ns[i]) by {
        assert(ns.contains(ns[i]));
        assert(ident_runs(text).contains(ns[i]));
        let j = choose|j: int| 0 <= j < ident_runs(text).len() && ident_runs(text)[j] == ns[i];
        assert(is_name(ident_runs(text)[j]));
    }
    lemma_runs_of_joined(ns);
    lemma_dedup_unique(ns);
}

/// Relies on regex::Regex::find_iter with the pattern `[A-Za-z_]+`: it finds
/// the maximal runs of ASCII letters and `'_'`, from the left.
#[verifier::external_body]
fn find_idents(s: &str) -> (r: Vec<String>)
    ensures
        views(r@) == ident_runs(s@),
{
    let search = regex::Regex::new(r"[A-Za-z_]+").unwrap();
    search.find_iter(s).map(|m| m.as_str().to_string()).collect()
}

/// `s` without repeats, each element kept at its first occurrence.
pub open spec fn dedup(s: Seq<Seq<char>>) -> Seq<Seq<char>>
    decreases s.len(),
{
    if s.len() == 0 {
        Seq::empty()
    } else {
        let d = dedup(s.drop_last());
        if d.contains(s.last()) {
            d
        } else {
            d.push(s.last())
        }
    }
}

/// The distinct names of `s`, in order of first occurrence.
pub open spec fn names_of(s: Seq<char>) -> Seq<Seq<char>> {
    dedup(ident_runs(s))
}

pub proof fn lemma_dedup_props(s: Seq<Seq<char>>)
    ensures
        dedup(s).no_duplicates(),
        forall|x: Seq<char>| dedup(s).contains(x) <==> s.contains(x),
        dedup(s).len() <= s.len(),
    decreases s.len(),
{
    if s.len() > 0 {
        let p = s.drop_last();
        lemma_dedup_props(p);
        assert forall|x: Seq<char>| dedup(s).contains(x) <==> s.contains(x) by {
            if s.contains(x) && x != s.last() {
                let k = choose|k: int| 0 <= k < s.len() && s[k] == x;
                assert(p[k] == x);
            }
            if p.contains(x) {
                let k = choose|k: int| 0 <= k < p.len() && p[k] == x;
                assert(s[k] == x);
            }
            assert(s[s.len() - 1] == s.last());
            assert(s.contains(x) <==> (p.contains(x) || x == s.last()));
            if !dedup(p).contains(s.last()) {
                let d = dedup(p).push(s.last());
                assert(d[d.len() - 1] == s.last());
                if d.contains(x) && x != s.last() {
                    let k = choose|k: int| 0 <= k < d.len() && d[k] == x;
                    assert(dedup(p)[k] == x);
                }
                if dedup(p).contains(x) {
                    let k = choose|k: int| 0 <= k < dedup(p).len() && dedup(p)[k] == x;
                    assert(d[k] == x);
                }
            }
            assert(dedup(s).contains(x) <==> (dedup(p).contains(x) || x == s.last()));
        }
    }
}

/// A list without repeats is its own deduplication.
pub proof fn lemma_dedup_unique(s: Seq<Seq<char>>)
    requires
        s.no_duplicates(),
    ensures
        dedup(s) == s,
    decreases s.len(),
{
    if s.len() > 0 {
        let p = s.drop_last();
        assert(p.no_duplicates());
        lemma_dedup_unique(p);
        lemma_dedup_props(p);
        if p.contains(s.last()) {
            let k = choose|k: int| 0 <= k < p.len() && p[k] == s.last();
            assert(s[k] == s[s.len() - 1]);
        }
        assert(p.push(s.last()) =~= s);
    }
}

/// Removing repeats a second time changes nothing.
pub proof fn lemma_dedup_idempotent(s: Seq<Seq<char>>)
    ensures
        dedup(dedup(s)) == dedup(s),
{
    lemma_dedup_props(s);
    lemma_dedup_unique(dedup(s));
}

/// The distinct elements of `runs`, each at its first occurrence.
pub fn unique_names(runs: &Vec<String>) -> (r: Vec<String>)
    ensures
        views(r@) == dedup(views(runs@)),
{
    let mut out: Vec<String> = Vec::new();
    let mut i: usize = 0;
    while i < runs.len()
        invariant
            i <= runs@.len(),
            views(out@) == dedup(views(runs@).subrange(0, i as int)),
        decreases runs@.len() - i,
    {
        let ghost pre = views(runs@).subrange(0, i as int);
        let ghost nxt = views(runs@).subrange(0, i + 1);
        assert(nxt.drop_last() =~= pre);
        let mut found = false;
        let mut j: usize = 0;
        while j < out.len()
            invariant
                i < runs@.len(),
                j <= out@.len(),
                views(out@) == dedup(pre),
                nxt.drop_last() == pre,
                nxt.last() == runs@[i as int]@,
                found == exists|k: int| 0 <= k < j && out@[k]@ == runs@[i as int]@,
            decreases out@.len() - j,
        {
            if out[j] == runs[i] {
                found = true;
            }
            j = j + 1;
        }
        proof {
            if found {
                let k = choose|k: int| 0 <= k < j && out@[k]@ == runs@[i as int]@;
                assert(views(out@)[k] == nxt.last());
            }
            if dedup(pre).contains(nxt.last()) {
                let k = choose|k: int| 0 <= k < dedup(pre).len() && dedup(pre)[k] == nxt.last();
                assert(out@[k]@ == runs@[i as int]@);
            }
        }
        if !found {
            out.push(runs[i].clone());
            assert(views(out@) =~= dedup(pre).push(nxt.last()));
        }
        i = i + 1;
    }
    assert(views(runs@).subrange(0, runs@.len() as int) =~= views(runs@));
    out
}

/// The distinct variable names of `text`, in order of first occurrence.
pub fn extract(text: &str) -> (r: Vec<String>)
    ensures
        views(r@) == names_of(text@),
        forall|k: int| 0 <= k < r@.len() ==> is_name(#[trigger] r@[k]@),
        forall|w: Seq<char>| views(r@).contains(w) <==> ident_runs(text@).contains(w),
        text@.len() == 0 ==> r@.len() == 0,
{
    let runs = find_idents(text);
    let r = unique_names(&runs);
    proof {
        lemma_dedup_props(views(runs@));
        lemma_runs_are_names(text@, Seq::empty());
        assert forall|k: int| 0 <= k < r@.len() implies is_name(#[trigger] r@[k]@) by {
            assert(views(r@)[k] == r@[k]@);
            assert(views(r@).contains(r@[k]@));
            assert(dedup(views(runs@)).contains(r@[k]@));
            assert(views(runs@).contains(r@[k]@));
            let j = choose|j: int| 0 <= j < views(runs@).len() && views(runs@)[j] == r@[k]@;
            assert(ident_runs(text@)[j] == r@[k]@);
        }
    }
    r
}

/// All identifier runs of `text`, in order, repeats kept.
pub fn identifier_runs(text: &str) -> (r: Vec<String>)
    ensures
        views(r@) == ident_runs(text@),
{
    find_idents(text)
}

} // verus!
