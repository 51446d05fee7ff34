use vstd::prelude::*;
use vstd::string::*;

verus! {

/// `s` with every occurrence of `pat` replaced by `rep`, occurrences taken from
/// the left and never overlapping. An empty pattern leaves `s` as it is.
pub open spec fn replace_all(s: Seq<char>, pat: Seq<char>, rep: Seq<char>) -> Seq<char>
    decreases s.len(),
{
    if pat.len() == 0 || s.len() < pat.len() {
        s
    } else if s.subrange(0, pat.len() as int) == pat {
        rep + replace_all(s.subrange(pat.len() as int, s.len() as int), pat, rep)
    } else {
        seq![s[0]] + replace_all(s.subrange(1, s.len() as int), pat, rep)
    }
}

/// Number of `'='` characters in `s`.
pub open spec fn count_eq(s: Seq<char>) -> nat
    decreases s.len(),
{
    if s.len() == 0 {
        0
    } else {
        (if s.last() == '=' { 1nat } else { 0nat }) + count_eq(s.drop_last())
    }
}

/// Position of the first `'='` in `s`, if any.
pub open spec fn first_eq(s: Seq<char>) -> Option<int>
    decreases s.len(),
{
    if s.len() == 0 {
        None
    } else if s[0] == '=' {
        Some(0)
    } else {
        match first_eq(s.drop_first()) {
            Some(i) => Some(i + 1),
            None => None,
        }
    }
}

/// The two sides of an equation that holds exactly one `'='`.
pub open spec fn sides_of(s: Seq<char>) -> (Seq<char>, Seq<char>)
    recommends
        first_eq(s) is Some,
{
    let i = first_eq(s)->0;
    (s.subrange(0, i), s.subrange(i + 1, s.len() as int))
}

pub proof fn lemma_first_eq(s: Seq<char>)
    ensures
        match first_eq(s) {
            Some(i) => 0 <= i < s.len() && s[i] == '=' && forall|j: int| 0 <= j < i ==> s[j] != '=',
            None => forall|j: int| 0 <= j < s.len() ==> s[j] != '=',
        },
    decreases s.len(),
{
    if s.len() > 0 {
        lemma_first_eq(s.drop_first());
        if s[0] != '=' {
            assert forall|j: int| 0 < j < s.len() implies s[j] == s.drop_first()[j - 1] by {}
        }
    }
}

/// The characters of `s`, one element each.
pub fn chars_of(s: &str) -> (r: Vec<char>)
    ensures
        r@ == s@,
{
    let n = s.unicode_len();
    let mut r: Vec<char> = Vec::new();
    let mut i: usize = 0;
    while i < n
        invariant
            n == s@.len(),
            i <= n,
            r@ == s@.subrange(0, i as int),
        decreases n - i,
    {
        r.push(s.get_char(i));
        i = i + 1;
    }
    assert(r@ =~= s@);
    r
}

/// Whether `pat` occurs in `s` at position `i`.
fn occurs_at(s: &Vec<char>, pat: &Vec<char>, i: usize) -> (b: bool)
    requires
        i + pat@.len() <= s@.len(),
    ensures
        b == (s@.subrange(i as int, i + pat@.len()) == pat@),
{
    let n = s.len();
    let mut k: usize = 0;
    while k < pat.len()
        invariant
            n == s@.len(),
            i + pat@.len() <= s@.len(),
            k <= pat@.len(),
            forall|j: int| 0 <= j < k ==> s@[i + j] == pat@[j],
        decreases pat@.len() - k,
    {
        if s[i + k] != pat[k] {
            assert(s@.subrange(i as int, i + pat@.len())[k as int] != pat@[k as int]);
            return false;
        }
        k = k + 1;
    }
    assert(s@.subrange(i as int, i + pat@.len()) =~= pat@);
    true
}

/// Replaces every occurrence of `pat` in `s` by `rep`, scanning from the left.
pub fn replace(s: &str, pat: &str, rep: &str) -> (r: String)
    ensures
        r@ == replace_all(s@, pat@, rep@),
{
    let sv = chars_of(s);
    let pv = chars_of(pat);
    let n = sv.len();
    let m = pv.len();
    let mut out = String::new();
    if m == 0 {
        out.append(s);
        assert(out@ =~= s@);
        return out;
    }
    let mut i: usize = 0;
    assert(s@.subrange(0, n as int) =~= s@);
    while m <= n - i
        invariant
            sv@ == s@,
            pv@ == pat@,
            n == s@.len(),
            m == pat@.len(),
            m > 0,
            i <= n,
            out@ + replace_all(s@.subrange(i as int, n as int), pat@, rep@) == replace_all(s@, pat@, rep@),
        decreases n - i,
    {
        let rest = Ghost(s@.subrange(i as int, n as int));
        assert(rest@.subrange(0, m as int) =~= s@.subrange(i as int, i + m));
        if occurs_at(&sv, &pv, i) {
            assert(rest@.subrange(m as int, rest@.len() as int) =~= s@.subrange(i + m, n as int));
            out.append(rep);
            i = i + m;
        } else {
            assert(rest@.subrange(1, rest@.len() as int) =~= s@.subrange(i + 1, n as int));
            out.append(s.substring_char(i, i + 1));
            assert(s@.subrange(i as int, i + 1) =~= seq![rest@[0]]);
            i = i + 1;
        }
        assert(out@ + replace_all(s@.subrange(i as int, n as int), pat@, rep@) =~= replace_all(s@, pat@, rep@));
    }
    out.append(s.substring_char(i, n));
    assert(out@ =~= replace_all(s@, pat@, rep@));
    out
}

/// The pieces of `s` between line breaks, in order: one more piece than
/// there are line breaks, empty pieces kept.
pub open spec fn lines_of(s: Seq<char>) -> Seq<Seq<char>>
    decreases s.len(),
{
    if s.len() == 0 {
        seq![Seq::<char>::empty()]
    } else {
        let p = lines_of(s.drop_last());
        if s.last() == '\n' {
            p.push(Seq::<char>::empty())
        } else {
            p.update(p.len() - 1, p.last().push(s.last()))
        }
    }
}

proof fn lemma_lines_of_nonempty(s: Seq<char>)
    ensures
        lines_of(s).len() >= 1,
    decreases s.len(),
{
    if s.len() > 0 {
        lemma_lines_of_nonempty(s.drop_last());
    }
}

/// Splits `text` at each line break.
pub fn split_lines(text: &str) -> (r: Vec<String>)
    ensures
        r@.map_values(|l: String| l@) == lines_of(text@),
{
    let sv = chars_of(text);
    let n = sv.len();
    let mut out: Vec<String> = Vec::new();
    let mut start: usize = 0;
    let mut i: usize = 0;
    assert(text@.subrange(0, 0) =~= Seq::<char>::empty());
    assert(out@.map_values(|l: String| l@).push(text@.subrange(0, 0)) =~= lines_of(text@.subrange(0, 0)));
    while i < n
        invariant
            sv@ == text@,
            n == text@.len(),
            start <= i <= n,
            out@.map_values(|l: String| l@).push(text@.subrange(start as int, i as int))
                == lines_of(text@.subrange(0, i as int)),
        decreases n - i,
    {
        let ghost pre = text@.subrange(0, i as int);
        let ghost cur = text@.subrange(0, i + 1);
        assert(cur.drop_last() =~= pre);
        proof { lemma_lines_of_nonempty(pre); }
        if sv[i] == '\n' {
            let piece = String::from_str(text.substring_char(start, i));
            let ghost before = out@.map_values(|l: String| l@);
            assert(cur.last() == '\n');
            out.push(piece);
            assert(out@.map_values(|l: String| l@) =~= before.push(text@.subrange(start as int, i as int)));
            assert(lines_of(cur) == lines_of(pre).push(Seq::<char>::empty()));
            assert(text@.subrange(i + 1, i + 1) =~= Seq::<char>::empty());
            assert(out@.map_values(|l: String| l@).push(text@.subrange(i + 1, i + 1)) =~= lines_of(cur));
            start = i + 1;
        } else {
            assert(cur.last() == sv@[i as int]);
            assert(text@.subrange(start as int, i + 1) =~= text@.subrange(start as int, i as int).push(sv@[i as int]));
            assert(out@.map_values(|l: String| l@).push(text@.subrange(start as int, i + 1)) =~= lines_of(cur));
        }
        i = i + 1;
    }
    assert(text@.subrange(0, n as int) =~= text@);
    let last = String::from_str(text.substring_char(start, n));
    out.push(last);
    assert(out@.map_values(|l: String| l@) =~= lines_of(text@));
    out
}

/// Whether `c` separates tokens in an expression.
pub open spec fn is_space(c: char) -> bool {
    c == ' ' || c == '\t' || c == '\n' || c == '\r'
}

/// Whether `s` holds nothing but spaces.
pub open spec fn blank(s: Seq<char>) -> bool {
    forall|i: int| 0 <= i < s.len() ==> is_space(s[i])
}

/// Whether `s` holds nothing but spaces.
pub fn is_blank(s: &str) -> (r: bool)
    ensures
        r == blank(s@),
{
    let sv = chars_of(s);
    let mut i: usize = 0;
    while i < sv.len()
        invariant
            sv@ == s@,
            i <= sv@.len(),
            forall|j: int| 0 <= j < i ==> is_space(s@[j]),
        decreases sv@.len() - i,
    {
        let c = sv[i];
        if !(c == ' ' || c == '\t' || c == '\n' || c == '\r') {
            return false;
        }
        i = i + 1;
    }
    true
}

/// Number of `'='` characters in `s`.
pub fn count_equals(s: &str) -> (r: usize)
    ensures
        r == count_eq(s@),
{
    let sv = chars_of(s);
    let mut count: usize = 0;
    let mut i: usize = 0;
    while i < sv.len()
        invariant
            sv@ == s@,
            i <= sv@.len(),
            count == count_eq(s@.subrange(0, i as int)),
            count <= i,
        decreases sv@.len() - i,
    {
        assert(s@.subrange(0, i + 1).drop_last() =~= s@.subrange(0, i as int));
        if sv[i] == '=' {
            count = count + 1;
        }
        i = i + 1;
    }
    assert(s@.subrange(0, sv@.len() as int) =~= s@);
    count
}

/// Splits an equation at its only `'='`; `None` unless it holds exactly one.
pub fn split_equation(s: &str) -> (r: Option<(String, String)>)
    ensures
        match r {
            Some((l, rt)) => count_eq(s@) == 1 && l@ == sides_of(s@).0 && rt@ == sides_of(s@).1,
            None => count_eq(s@) != 1,
        },
{
    let sv = chars_of(s);
    let n = sv.len();
    let mut count: usize = 0;
    let mut first: usize = n;
    let mut i: usize = 0;
    while i < n
        invariant
            sv@ == s@,
            n == s@.len(),
            i <= n,
            count == count_eq(s@.subrange(0, i as int)),
            count <= i,
            first <= n,
            first < n <==> first_eq(s@.subrange(0, i as int)) is Some,
            first < n ==> first_eq(s@.subrange(0, i as int)) == Some(first as int),
        decreases n - i,
    {
        proof { lemma_first_eq_extend(s@, i as int); }
        assert(s@.subrange(0, i + 1).drop_last() =~= s@.subrange(0, i as int));
        if sv[i] == '=' {
            count = count + 1;
            if first == n {
                first = i;
            }
        }
        i = i + 1;
    }
    assert(s@.subrange(0, n as int) =~= s@);
    if count != 1 {
        return None;
    }
    proof { lemma_count_first(s@); }
    let l = String::from_str(s.substring_char(0, first));
    let rt = String::from_str(s.substring_char(first + 1, n));
    Some((l, rt))
}

proof fn lemma_first_eq_extend(s: Seq<char>, i: int)
    requires
        0 <= i < s.len(),
    ensures
        first_eq(s.subrange(0, i + 1)) == match first_eq(s.subrange(0, i)) {
            Some(k) => Some(k),
            None => if s[i] == '=' { Some(i) } else { None },
        },
    decreases i,
{
    let a = s.subrange(0, i + 1);
    let b = s.subrange(0, i);
    if i == 0 {
        assert(a.drop_first() =~= Seq::<char>::empty());
        assert(b.len() == 0);
        assert(a[0] == s[0]);
        assert(first_eq(a.drop_first()) is None);
    } else {
        let t = s.drop_first();
        lemma_first_eq_extend(t, i - 1);
        assert(t[i - 1] == s[i]);
        assert(a[0] == s[0]);
        assert(b[0] == s[0]);
        assert(a.drop_first() =~= t.subrange(0, i));
        assert(b.drop_first() =~= t.subrange(0, i - 1));
    }
}

/// Whether `s` holds no `'='`.
pub open spec fn no_eq(s: Seq<char>) -> bool {
    forall|i: int| 0 <= i < s.len() ==> s[i] != '='
}

pub proof fn lemma_count_concat(a: Seq<char>, b: Seq<char>)
    ensures
        count_eq(a + b) == count_eq(a) + count_eq(b),
    decreases b.len(),
{
    if b.len() == 0 {
        assert(a + b =~= a);
    } else {
        lemma_count_concat(a, b.drop_last());
        assert((a + b).drop_last() =~= a + b.drop_last());
        assert((a + b).last() == b.last());
    }
}

pub proof fn lemma_count_zero_no_eq(s: Seq<char>)
    requires
        count_eq(s) == 0,
    ensures
        no_eq(s),
    decreases s.len(),
{
    if s.len() > 0 {
        lemma_count_zero_no_eq(s.drop_last());
        assert forall|i: int| 0 <= i < s.len() implies s[i] != '=' by {
            if i < s.len() - 1 {
                assert(s.drop_last()[i] == s[i]);
            }
        }
    }
}

/// An equation with one `'='` is its two sides around that `'='`, and
/// neither side holds another.
pub proof fn lemma_sides(s: Seq<char>)
    requires
        count_eq(s) == 1,
    ensures
        first_eq(s) is Some,
        s == sides_of(s).0 + seq!['='] + sides_of(s).1,
        no_eq(sides_of(s).0),
        no_eq(sides_of(s).1),
{
    lemma_count_first(s);
    lemma_first_eq(s);
    let (l, r) = sides_of(s);
    let i = first_eq(s)->0;
    assert(s =~= l + seq!['='] + r);
    lemma_count_zero(l);
    lemma_count_concat(l, seq!['=']);
    lemma_count_concat(l + seq!['='], r);
    assert(count_eq(seq!['=']) == 1) by {
        let one = seq!['='];
        assert(one.drop_last() =~= Seq::<char>::empty());
        assert(count_eq(one.drop_last()) == 0);
        assert(one.last() == '=');
    }
    lemma_count_zero_no_eq(r);
}

/// Where the only `'='` of `a + "=" + b` stands when neither part holds one.
pub proof fn lemma_join_sides(a: Seq<char>, b: Seq<char>)
    requires
        no_eq(a),
        no_eq(b),
    ensures
        first_eq(a + seq!['='] + b) == Some(a.len() as int),
        sides_of(a + seq!['='] + b) == (a, b),
        count_eq(a + seq!['='] + b) == 1,
{
    let x = a + seq!['='] + b;
    lemma_first_eq(x);
    assert(x[a.len() as int] == '=');
    if first_eq(x) is Some {
        let j = first_eq(x)->0;
        if j < a.len() {
            assert(x[j] == a[j]);
        }
    }
    assert(x.subrange(0, a.len() as int) =~= a);
    assert(x.subrange(a.len() as int + 1, x.len() as int) =~= b);
    lemma_count_zero(a);
    lemma_count_zero(b);
    lemma_count_concat(a, seq!['=']);
    lemma_count_concat(a + seq!['='], b);
    assert(count_eq(seq!['=']) == 1) by {
        let one = seq!['='];
        assert(one.drop_last() =~= Seq::<char>::empty());
        assert(count_eq(one.drop_last()) == 0);
        assert(one.last() == '=');
    }
}

pub proof fn lemma_count_first(s: Seq<char>)
    requires
        count_eq(s) >= 1,
    ensures
        first_eq(s) is Some,
    decreases s.len(),
{
    lemma_first_eq(s);
    if first_eq(s) is None {
        lemma_count_zero(s);
    }
}

pub proof fn lemma_count_zero(s: Seq<char>)
    requires
        forall|j: int| 0 <= j < s.len() ==> s[j] != '=',
    ensures
        count_eq(s) == 0,
    decreases s.len(),
{
    if s.len() > 0 {
        lemma_count_zero(s.drop_last());
    }
}

} // verus!
