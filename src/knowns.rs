use vstd::prelude::*;
use vstd::string::*;
use crate::extract::{ident_runs, is_ident_char, run_if_any, runs_from};
use crate::text::{chars_of, no_eq};

verus! {

/// Whether `name` has an entry in `k`.
pub open spec fn has_name(k: Seq<(Seq<char>, Seq<char>)>, name: Seq<char>) -> bool {
    exists|i: int| 0 <= i < k.len() && k[i].0 == name
}

/// `k` after recording `value` for `name`: a name that has a value keeps it,
/// and a value text that is not a decimal is not taken.
pub open spec fn with_value(k: Seq<(Seq<char>, Seq<char>)>, name: Seq<char>, value: Seq<char>) -> Seq<(Seq<char>, Seq<char>)> {
    if has_name(k, name) || !is_decimal_text(value) {
        k
    } else {
        k.push((name, value))
    }
}

/// Recording never overwrites nor drops a value: every entry stays where it
/// was, and recording a second value for the same name changes nothing.
pub proof fn lemma_first_value_stays(
    k: Seq<(Seq<char>, Seq<char>)>,
    name: Seq<char>,
    first: Seq<char>,
    second: Seq<char>,
)
    requires
        is_decimal_text(first),
    ensures
        with_value(k, name, first).len() >= k.len(),
        forall|i: int| 0 <= i < k.len() ==> #[trigger] with_value(k, name, first)[i] == k[i],
        has_name(with_value(k, name, first), name),
        with_value(with_value(k, name, first), name, second) == with_value(k, name, first),
{
    let k1 = with_value(k, name, first);
    if !has_name(k, name) {
        assert(k1[k.len() as int].0 == name);
    }
}

/// `k` after recording each entry of `recs` in turn.
pub open spec fn with_values(k: Seq<(Seq<char>, Seq<char>)>, recs: Seq<(Seq<char>, Seq<char>)>) -> Seq<(Seq<char>, Seq<char>)>
    decreases recs.len(),
{
    if recs.len() == 0 {
        k
    } else {
        let before = with_values(k, recs.drop_last());
        with_value(before, recs.last().0, recs.last().1)
    }
}

/// Once the values are final, another pass changes nothing: recording any
/// values, in any order, for names that all have one leaves the table as it was.
pub proof fn lemma_extra_pass_keeps_values(k: Seq<(Seq<char>, Seq<char>)>, recs: Seq<(Seq<char>, Seq<char>)>)
    requires
        forall|i: int| 0 <= i < recs.len() ==> has_name(k, #[trigger] recs[i].0),
    ensures
        with_values(k, recs) == k,
    decreases recs.len(),
{
    if recs.len() > 0 {
        let p = recs.drop_last();
        assert forall|i: int| 0 <= i < p.len() implies has_name(k, #[trigger] p[i].0) by {
            assert(p[i] == recs[i]);
        }
        lemma_extra_pass_keeps_values(k, p);
        assert(has_name(k, recs[recs.len() - 1].0));
    }
}

/// No name has two entries.
pub open spec fn names_distinct(k: Seq<(Seq<char>, Seq<char>)>) -> bool {
    forall|i: int, j: int| 0 <= i < j < k.len() ==> k[i].0 != k[j].0
}

/// The value recorded for `name` in `k`.
pub open spec fn value_of(k: Seq<(Seq<char>, Seq<char>)>, name: Seq<char>) -> Seq<char> {
    k[choose|i: int| 0 <= i < k.len() && k[i].0 == name].1
}

/// What a whole identifier run `w` becomes: its value if it has one.
pub open spec fn emit(w: Seq<char>, k: Seq<(Seq<char>, Seq<char>)>) -> Seq<char> {
    if w.len() > 0 && has_name(k, w) {
        value_of(k, w)
    } else {
        w
    }
}

/// `s` with each identifier run that has a value replaced by that value,
/// where `cur` is the part of a run that stands just before `s`.
pub open spec fn subst_from(s: Seq<char>, cur: Seq<char>, k: Seq<(Seq<char>, Seq<char>)>) -> Seq<char>
    decreases s.len(),
{
    if s.len() == 0 {
        emit(cur, k)
    } else if is_ident_char(s[0]) {
        subst_from(s.drop_first(), cur.push(s[0]), k)
    } else {
        emit(cur, k) + seq![s[0]] + subst_from(s.drop_first(), Seq::empty(), k)
    }
}

/// `text` with every name that has a value replaced by that value. Only a
/// whole identifier run is replaced: a name inside a longer one is left alone.
pub open spec fn substitute(text: Seq<char>, k: Seq<(Seq<char>, Seq<char>)>) -> Seq<char> {
    subst_from(text, Seq::empty(), k)
}

/// Whether no character of `s` is a name character.
pub open spec fn no_name_chars(s: Seq<char>) -> bool {
    forall|i: int| 0 <= i < s.len() ==> !is_ident_char(#[trigger] s[i])
}

/// A character of a decimal value text: a digit, `'.'` or `'-'`.
pub open spec fn is_decimal_char(c: char) -> bool {
    ('0' <= c && c <= '9') || c == '.' || c == '-'
}

/// Whether `s` can be a value text: non-empty, of digits, `'.'` and `'-'`
/// only, as the decimal form of a finite number is.
pub open spec fn is_decimal_text(s: Seq<char>) -> bool {
    s.len() > 0 && forall|i: int| 0 <= i < s.len() ==> is_decimal_char(#[trigger] s[i])
}

/// Whether `s` can be a value text.
pub fn is_decimal(s: &str) -> (r: bool)
    ensures
        r == is_decimal_text(s@),
{
    let sv = chars_of(s);
    if sv.len() == 0 {
        return false;
    }
    let mut i: usize = 0;
    while i < sv.len()
        invariant
            sv@ == s@,
            i <= sv@.len(),
            forall|j: int| 0 <= j < i ==> is_decimal_char(#[trigger] s@[j]),
        decreases sv@.len() - i,
    {
        let c = sv[i];
        if !(('0' <= c && c <= '9') || c == '.' || c == '-') {
            assert(!is_decimal_char(s@[i as int]));
            return false;
        }
        i = i + 1;
    }
    true
}

/// A decimal value text has no name character and no `'='`.
pub proof fn lemma_decimal_is_plain(s: Seq<char>)
    requires
        is_decimal_text(s),
    ensures
        no_name_chars(s),
        forall|i: int| 0 <= i < s.len() ==> s[i] != '=',
{
    assert forall|i: int| 0 <= i < s.len() implies !is_ident_char(#[trigger] s[i]) && s[i] != '=' by {
        assert(is_decimal_char(s[i]));
    }
}

/// Every value text of `k` is a decimal.
pub open spec fn plain_values(k: Seq<(Seq<char>, Seq<char>)>) -> bool {
    forall|i: int| 0 <= i < k.len() ==> is_decimal_text(#[trigger] k[i].1)
}

/// The runs of `rs` that have no value in `k`, in order.
pub open spec fn without_known(rs: Seq<Seq<char>>, k: Seq<(Seq<char>, Seq<char>)>) -> Seq<Seq<char>>
    decreases rs.len(),
{
    if rs.len() == 0 {
        rs
    } else {
        (if has_name(k, rs[0]) { Seq::empty() } else { seq![rs[0]] }) + without_known(rs.drop_first(), k)
    }
}

proof fn lemma_without_known_add(a: Seq<Seq<char>>, b: Seq<Seq<char>>, k: Seq<(Seq<char>, Seq<char>)>)
    ensures
        without_known(a + b, k) == without_known(a, k) + without_known(b, k),
    decreases a.len(),
{
    if a.len() == 0 {
        assert(a + b =~= b);
        assert(without_known(a, k) + without_known(b, k) =~= without_known(b, k));
    } else {
        lemma_without_known_add(a.drop_first(), b, k);
        assert((a + b).drop_first() =~= a.drop_first() + b);
        assert((a + b)[0] == a[0]);
        let h: Seq<Seq<char>> = if has_name(k, a[0]) { Seq::empty() } else { seq![a[0]] };
        assert(h + (without_known(a.drop_first(), k) + without_known(b, k)) =~= (h + without_known(a.drop_first(), k))
            + without_known(b, k));
    }
}

/// A text without name characters adds no run in front of another.
proof fn lemma_runs_skip_plain(p: Seq<char>, y: Seq<char>)
    requires
        no_name_chars(p),
    ensures
        runs_from(p + y, Seq::empty()) == runs_from(y, Seq::empty()),
    decreases p.len(),
{
    if p.len() == 0 {
        assert(p + y =~= y);
    } else {
        assert((p + y)[0] == p[0]);
        assert(!is_ident_char(p[0]));
        assert((p + y).drop_first() =~= p.drop_first() + y);
        assert(run_if_any(Seq::<char>::empty()) =~= Seq::<Seq<char>>::empty());
        assert(runs_from(p + y, Seq::empty()) =~= runs_from(p.drop_first() + y, Seq::empty()));
        lemma_runs_skip_plain(p.drop_first(), y);
    }
}

/// Name characters in front of a text join the run in progress.
pub proof fn lemma_runs_join(w: Seq<char>, z: Seq<char>, cur: Seq<char>)
    requires
        forall|i: int| 0 <= i < w.len() ==> is_ident_char(#[trigger] w[i]),
    ensures
        runs_from(w + z, cur) == runs_from(z, cur + w),
    decreases w.len(),
{
    if w.len() == 0 {
        assert(w + z =~= z);
        assert(cur + w =~= cur);
    } else {
        assert((w + z)[0] == w[0]);
        assert((w + z).drop_first() =~= w.drop_first() + z);
        assert(cur.push(w[0]) + w.drop_first() =~= cur + w);
        assert forall|i: int| 0 <= i < w.drop_first().len() implies is_ident_char(#[trigger] w.drop_first()[i]) by {
            assert(w.drop_first()[i] == w[i + 1]);
        }
        lemma_runs_join(w.drop_first(), z, cur.push(w[0]));
    }
}

/// Substitution leaves exactly the runs that have no value, when no value
/// text holds a name character.
pub proof fn lemma_subst_runs(s: Seq<char>, cur: Seq<char>, k: Seq<(Seq<char>, Seq<char>)>)
    requires
        plain_values(k),
        names_distinct(k),
        forall|i: int| 0 <= i < cur.len() ==> is_ident_char(#[trigger] cur[i]),
    ensures
        runs_from(subst_from(s, cur, k), Seq::empty()) == without_known(runs_from(s, cur), k),
    decreases s.len(),
{
    let e = emit(cur, k);
    let empty = Seq::<char>::empty();
    if cur.len() > 0 && has_name(k, cur) {
        let i = choose|i: int| 0 <= i < k.len() && k[i].0 == cur;
        assert(is_decimal_text(k[i].1));
        lemma_decimal_is_plain(k[i].1);
        assert(e == k[i].1);
    }
    assert(without_known(Seq::<Seq<char>>::empty(), k) =~= Seq::<Seq<char>>::empty());
    assert(without_known(run_if_any(cur), k) == (if cur.len() > 0 && has_name(k, cur) {
        Seq::<Seq<char>>::empty()
    } else {
        run_if_any(cur)
    })) by {
        if cur.len() > 0 {
            assert(run_if_any(cur).drop_first() =~= Seq::<Seq<char>>::empty());
            assert(run_if_any(cur)[0] == cur);
            let h: Seq<Seq<char>> = if has_name(k, cur) { Seq::empty() } else { seq![cur] };
            assert(h + Seq::<Seq<char>>::empty() =~= h);
        }
    }
    if s.len() == 0 {
        if cur.len() > 0 && has_name(k, cur) {
            assert(e + empty =~= e);
            lemma_runs_skip_plain(e, empty);
        } else {
            assert(cur + empty =~= cur);
            lemma_runs_join(cur, empty, empty);
            assert(empty + cur =~= cur);
        }
    } else if is_ident_char(s[0]) {
        let c2 = cur.push(s[0]);
        assert forall|i: int| 0 <= i < c2.len() implies is_ident_char(#[trigger] c2[i]) by {
            if i < cur.len() {
                assert(c2[i] == cur[i]);
            }
        }
        lemma_subst_runs(s.drop_first(), c2, k);
    } else {
        let c = s[0];
        let y = subst_from(s.drop_first(), empty, k);
        lemma_subst_runs(s.drop_first(), empty, k);
        lemma_without_known_add(run_if_any(cur), runs_from(s.drop_first(), empty), k);
        let tail = seq![c] + y;
        assert(e + seq![c] + y =~= e + tail);
        assert(runs_from(tail, empty) == run_if_any(empty) + runs_from(y, empty)) by {
            assert(tail[0] == c);
            assert(tail.drop_first() =~= y);
        }
        assert(run_if_any(empty) + runs_from(y, empty) =~= runs_from(y, empty));
        if cur.len() > 0 && has_name(k, cur) {
            lemma_runs_skip_plain(e, tail);
            assert(Seq::<Seq<char>>::empty() + runs_from(y, empty) =~= runs_from(y, empty));
        } else {
            lemma_runs_join(cur, tail, empty);
            assert(empty + cur =~= cur);
            assert(runs_from(tail, cur) == run_if_any(cur) + runs_from(y, empty)) by {
                assert(tail[0] == c);
                assert(tail.drop_first() =~= y);
            }
        }
    }
}

/// With value texts free of name characters, the identifier runs left after
/// substitution are exactly the runs of the text that have no value.
pub proof fn lemma_substitute_leaves_unknown_runs(text: Seq<char>, k: Seq<(Seq<char>, Seq<char>)>)
    requires
        plain_values(k),
        names_distinct(k),
    ensures
        ident_runs(substitute(text, k)) == without_known(ident_runs(text), k),
{
    lemma_subst_runs(text, Seq::empty(), k);
}

/// Substitution brings in no `'='` when the text and the values hold none.
pub proof fn lemma_subst_no_eq(s: Seq<char>, cur: Seq<char>, k: Seq<(Seq<char>, Seq<char>)>)
    requires
        no_eq(s),
        no_eq(cur),
        plain_values(k),
    ensures
        no_eq(subst_from(s, cur, k)),
    decreases s.len(),
{
    let e = emit(cur, k);
    if cur.len() > 0 && has_name(k, cur) {
        let i = choose|i: int| 0 <= i < k.len() && k[i].0 == cur;
        assert(is_decimal_text(k[i].1));
        lemma_decimal_is_plain(k[i].1);
    }
    assert(no_eq(e));
    if s.len() > 0 {
        assert(s.drop_first().len() == s.len() - 1);
        assert forall|i: int| 0 <= i < s.drop_first().len() implies s.drop_first()[i] != '=' by {
            assert(s.drop_first()[i] == s[i + 1]);
        }
        if is_ident_char(s[0]) {
            let c2 = cur.push(s[0]);
            assert forall|i: int| 0 <= i < c2.len() implies c2[i] != '=' by {
                if i < cur.len() {
                    assert(c2[i] == cur[i]);
                }
            }
            lemma_subst_no_eq(s.drop_first(), c2, k);
        } else {
            lemma_subst_no_eq(s.drop_first(), Seq::empty(), k);
            let y = subst_from(s.drop_first(), Seq::empty(), k);
            let t = e + seq![s[0]] + y;
            assert forall|i: int| 0 <= i < t.len() implies t[i] != '=' by {
                if i < e.len() {
                    assert(t[i] == e[i]);
                } else if i == e.len() {
                    assert(t[i] == s[0]);
                } else {
                    assert(t[i] == y[i - e.len() - 1]);
                }
            }
        }
    }
}

/// Substitution works on each side of a character that is not a name
/// character on its own.
pub proof fn lemma_subst_split(a: Seq<char>, c: char, b: Seq<char>, cur: Seq<char>, k: Seq<(Seq<char>, Seq<char>)>)
    requires
        !is_ident_char(c),
    ensures
        subst_from(a + seq![c] + b, cur, k) == subst_from(a, cur, k) + seq![c] + subst_from(b, Seq::empty(), k),
    decreases a.len(),
{
    let t = a + seq![c] + b;
    if a.len() == 0 {
        assert(t[0] == c);
        assert(t.drop_first() =~= b);
    } else {
        assert(t[0] == a[0]);
        assert(t.drop_first() =~= a.drop_first() + seq![c] + b);
        if is_ident_char(a[0]) {
            lemma_subst_split(a.drop_first(), c, b, cur.push(a[0]), k);
        } else {
            lemma_subst_split(a.drop_first(), c, b, Seq::empty(), k);
            let e = emit(cur, k);
            assert(e + seq![a[0]] + (subst_from(a.drop_first(), Seq::empty(), k) + seq![c] + subst_from(b, Seq::empty(), k))
                =~= (e + seq![a[0]] + subst_from(a.drop_first(), Seq::empty(), k)) + seq![c] + subst_from(b, Seq::empty(), k));
        }
    }
}

pub proof fn lemma_without_known_contains(rs: Seq<Seq<char>>, k: Seq<(Seq<char>, Seq<char>)>, w: Seq<char>)
    ensures
        without_known(rs, k).contains(w) <==> (rs.contains(w) && !has_name(k, w)),
    decreases rs.len(),
{
    if rs.len() > 0 {
        let t = rs.drop_first();
        lemma_without_known_contains(t, k, w);
        let h: Seq<Seq<char>> = if has_name(k, rs[0]) { Seq::empty() } else { seq![rs[0]] };
        let r = h + without_known(t, k);
        assert(rs.contains(w) <==> (rs[0] == w || t.contains(w))) by {
            if rs.contains(w) && rs[0] != w {
                let i = choose|i: int| 0 <= i < rs.len() && rs[i] == w;
                assert(t[i - 1] == w);
            }
            if t.contains(w) {
                let i = choose|i: int| 0 <= i < t.len() && t[i] == w;
                assert(rs[i + 1] == w);
            }
            assert(rs[0] == rs[0]);
        }
        assert(r.contains(w) <==> (h.contains(w) || without_known(t, k).contains(w))) by {
            if r.contains(w) {
                let i = choose|i: int| 0 <= i < r.len() && r[i] == w;
                if i >= h.len() {
                    assert(without_known(t, k)[i - h.len()] == w);
                } else {
                    assert(h[i] == w);
                }
            }
            if without_known(t, k).contains(w) {
                let i = choose|i: int| 0 <= i < without_known(t, k).len() && without_known(t, k)[i] == w;
                assert(r[i + h.len()] == w);
            }
            if h.contains(w) {
                assert(r[0] == h[0]);
            }
        }
        if !has_name(k, rs[0]) {
            assert(h[0] == rs[0]);
        }
    }
}

/// The values resolved so far: each name with the decimal text of its value,
/// in the order they were resolved.
pub struct Knowns {
    entries: Vec<(String, String)>,
}

impl View for Knowns {
    type V = Seq<(Seq<char>, Seq<char>)>;

    closed spec fn view(&self) -> Seq<(Seq<char>, Seq<char>)> {
        self.entries@.map_values(|e: (String, String)| (e.0@, e.1@))
    }
}

impl Knowns {
    pub open spec fn wf(&self) -> bool {
        names_distinct(self@) && plain_values(self@)
    }

    /// An empty table.
    pub fn new() -> (r: Knowns)
        ensures
            r@ == Seq::<(Seq<char>, Seq<char>)>::empty(),
            r.wf(),
    {
        let r = Knowns { entries: Vec::new() };
        assert(r@ =~= Seq::<(Seq<char>, Seq<char>)>::empty());
        r
    }

    /// Number of names resolved.
    pub fn len(&self) -> (r: usize)
        ensures
            r == self@.len(),
    {
        self.entries.len()
    }

    /// Name of the `i`-th entry.
    pub fn name_at(&self, i: usize) -> (r: &String)
        requires
            i < self@.len(),
        ensures
            r@ == self@[i as int].0,
    {
        &self.entries[i].0
    }

    /// Value text of the `i`-th entry.
    pub fn value_at(&self, i: usize) -> (r: &String)
        requires
            i < self@.len(),
        ensures
            r@ == self@[i as int].1,
    {
        &self.entries[i].1
    }

    /// Whether `name` has a value.
    pub fn contains(&self, name: &str) -> (r: bool)
        ensures
            r == has_name(self@, name@),
    {
        let wanted = String::from_str(name);
        let mut i: usize = 0;
        while i < self.entries.len()
            invariant
                wanted@ == name@,
                i <= self@.len(),
                forall|j: int| 0 <= j < i ==> self@[j].0 != name@,
            decreases self@.len() - i,
        {
            if self.entries[i].0 == wanted {
                assert(self@[i as int].0 == name@);
                return true;
            }
            i = i + 1;
        }
        false
    }

    /// Records `name` with `value` unless `name` already has one: the first
    /// value recorded for a name stays. Returns whether an entry was added.
    pub fn insert(&mut self, name: String, value: String) -> (added: bool)
        requires
            old(self).wf(),
        ensures
            final(self).wf(),
            added == (!has_name(old(self)@, name@) && is_decimal_text(value@)),
            final(self)@ == with_value(old(self)@, name@, value@),
    {
        if self.contains(name.as_str()) || !is_decimal(value.as_str()) {
            return false;
        }
        let ghost pre = self@;
        self.entries.push((name, value));
        assert(self@ =~= pre.push((name@, value@)));
        assert(plain_values(self@)) by {
            assert forall|i: int| 0 <= i < self@.len() implies is_decimal_text(#[trigger] self@[i].1) by {
                if i < pre.len() {
                    assert(self@[i] == pre[i]);
                }
            }
        }
        assert(names_distinct(self@)) by {
            assert forall|i: int, j: int| 0 <= i < j < self@.len() implies self@[i].0 != self@[j].0 by {
                if j == pre.len() {
                    assert(pre[i].0 != name@);
                }
            }
        }
        true
    }

    /// The value of `name`, if it has one.
    pub fn lookup(&self, name: &str) -> (r: Option<&String>)
        requires
            self.wf(),
        ensures
            r is Some <==> has_name(self@, name@),
            r matches Some(v) ==> v@ == value_of(self@, name@),
    {
        let wanted = String::from_str(name);
        let mut i: usize = 0;
        while i < self.entries.len()
            invariant
                self.wf(),
                wanted@ == name@,
                i <= self@.len(),
                forall|j: int| 0 <= j < i ==> self@[j].0 != name@,
            decreases self@.len() - i,
        {
            if self.entries[i].0 == wanted {
                proof {
                    assert(self@[i as int].0 == name@);
                    let j = choose|j: int| 0 <= j < self@.len() && self@[j].0 == name@;
                    if j != i as int {
                        assert(names_distinct(self@));
                        if j < i {
                            assert(self@[j].0 != self@[i as int].0);
                        } else {
                            assert(self@[i as int].0 != self@[j].0);
                        }
                    }
                }
                return Some(&self.entries[i].1);
            }
            i = i + 1;
        }
        None
    }

    /// What the identifier run `w` becomes in a substitution.
    fn emit_run(&self, w: &str) -> (r: String)
        requires
            self.wf(),
        ensures
            r@ == emit(w@, self@),
    {
        if w.unicode_len() == 0 {
            return String::from_str(w);
        }
        match self.lookup(w) {
            Some(v) => v.clone(),
            None => String::from_str(w),
        }
    }

    /// `text` with every name that has a value replaced by that value, where
    /// it stands as a whole identifier run.
    pub fn substitute_into(&self, text: &str) -> (r: String)
        requires
            self.wf(),
        ensures
            r@ == substitute(text@, self@),
    {
        let sv = chars_of(text);
        let n = sv.len();
        let mut out = String::new();
        let mut start: usize = 0;
        let mut i: usize = 0;
        assert(text@.subrange(0, 0) =~= Seq::<char>::empty());
        assert(text@.subrange(0, n as int) =~= text@);
        while i < n
            invariant
                self.wf(),
                sv@ == text@,
                n == text@.len(),
                start <= i <= n,
                out@ + subst_from(text@.subrange(i as int, n as int), text@.subrange(start as int, i as int), self@)
                    == substitute(text@, self@),
            decreases n - i,
        {
            let ghost rest = text@.subrange(i as int, n as int);
            let ghost cur = text@.subrange(start as int, i as int);
            assert(rest[0] == sv@[i as int]);
            assert(rest.drop_first() =~= text@.subrange(i + 1, n as int));
            let c = sv[i];
            if ('a' <= c && c <= 'z') || ('A' <= c && c <= 'Z') || c == '_' {
                assert(cur.push(c) =~= text@.subrange(start as int, i + 1));
                i = i + 1;
            } else {
                let w = self.emit_run(text.substring_char(start, i));
                out.append(w.as_str());
                out.append(text.substring_char(i, i + 1));
                assert(text@.subrange(i as int, i + 1) =~= seq![c]);
                assert(text@.subrange(i + 1, i + 1) =~= Seq::<char>::empty());
                assert(subst_from(rest, cur, self@) == emit(cur, self@) + seq![c] + subst_from(
                    rest.drop_first(),
                    Seq::empty(),
                    self@,
                ));
                i = i + 1;
                start = i;
            }
        }
        let w = self.emit_run(text.substring_char(start, n));
        out.append(w.as_str());
        assert(text@.subrange(n as int, n as int) =~= Seq::<char>::empty());
        out
    }
}

} // verus!
