use vstd::prelude::*;
use vstd::string::*;
use crate::extract::{dedup, extract, identifier_runs, ident_runs, lemma_dedup_props, lemma_runs_split, names_of, views};
use crate::knowns::{
    has_name, lemma_subst_no_eq, lemma_subst_split, lemma_substitute_leaves_unknown_runs, lemma_without_known_contains,
    names_distinct, plain_values, substitute, Knowns,
};
use crate::text::{
    count_eq, first_eq, lemma_count_first, lemma_first_eq, lemma_join_sides, lemma_sides, sides_of, split_equation,
};

verus! {

/// An equation line that does not hold exactly one `'='`.
#[derive(Debug, PartialEq, Eq)]
pub enum ParseError {
    NotOneEquals(String),
}

/// Left side of `line` with the known values written in.
pub open spec fn lhs_text(line: Seq<char>, k: Seq<(Seq<char>, Seq<char>)>) -> Seq<char> {
    substitute(sides_of(line).0, k)
}

/// Right side of `line` with the known values written in.
pub open spec fn rhs_text(line: Seq<char>, k: Seq<(Seq<char>, Seq<char>)>) -> Seq<char> {
    substitute(sides_of(line).1, k)
}

/// `line` with the known values written in. Each side is substituted on its
/// own, so a substitution never moves the `'='`.
pub open spec fn substituted(line: Seq<char>, k: Seq<(Seq<char>, Seq<char>)>) -> Seq<char> {
    lhs_text(line, k) + seq!['='] + rhs_text(line, k)
}

/// The verdict on a line: one unknown in all, and at most one on each side.
pub open spec fn solvable(line: Seq<char>, k: Seq<(Seq<char>, Seq<char>)>) -> bool {
    &&& names_of(substituted(line, k)).len() == 1
    &&& names_of(lhs_text(line, k)).len() <= 1
    &&& names_of(rhs_text(line, k)).len() <= 1
}

/// The unknowns left in a line are exactly the line's names that have no
/// value: a known name is replaced wherever it stands as a whole name, and
/// nothing else changes which names remain.
pub proof fn lemma_unknowns_are_unknown_names(line: Seq<char>, k: Seq<(Seq<char>, Seq<char>)>, w: Seq<char>)
    requires
        count_eq(line) == 1,
        names_distinct(k),
        plain_values(k),
    ensures
        names_of(substituted(line, k)).contains(w) <==> (names_of(line).contains(w) && !has_name(k, w)),
{
    lemma_count_first(line);
    lemma_first_eq(line);
    let i = first_eq(line)->0;
    let (l, r) = sides_of(line);
    assert(line =~= l + seq!['='] + r);
    lemma_subst_split(l, '=', r, Seq::empty(), k);
    assert(substitute(line, k) == substituted(line, k));
    lemma_substitute_leaves_unknown_runs(line, k);
    lemma_dedup_props(ident_runs(substituted(line, k)));
    lemma_dedup_props(ident_runs(line));
    lemma_without_known_contains(ident_runs(line), k, w);
}

/// With decimal values, the substituted equation still holds one `'='`, and
/// its two sides are the two sides of the line substituted on their own.
pub proof fn lemma_substituted_splits(line: Seq<char>, k: Seq<(Seq<char>, Seq<char>)>)
    requires
        count_eq(line) == 1,
        plain_values(k),
    ensures
        count_eq(substituted(line, k)) == 1,
        sides_of(substituted(line, k)) == (lhs_text(line, k), rhs_text(line, k)),
{
    lemma_sides(line);
    lemma_subst_no_eq(sides_of(line).0, Seq::empty(), k);
    lemma_subst_no_eq(sides_of(line).1, Seq::empty(), k);
    lemma_join_sides(lhs_text(line, k), rhs_text(line, k));
}

proof fn lemma_one_name_bounds_part(part: Seq<Seq<char>>, whole: Seq<Seq<char>>)
    requires
        part.no_duplicates(),
        whole.len() == 1,
        forall|w: Seq<char>| part.contains(w) ==> whole.contains(w),
    ensures
        part.len() <= 1,
{
    if part.len() >= 2 {
        assert(part.contains(part[0]));
        assert(part.contains(part[1]));
        assert(part[0] == whole[0]);
        assert(part[1] == whole[0]);
    }
}

/// A line is solvable exactly when one distinct name is left in it: the
/// names of each side are among those of the whole equation.
pub proof fn lemma_solvable_iff_one_unknown(line: Seq<char>, k: Seq<(Seq<char>, Seq<char>)>)
    ensures
        solvable(line, k) <==> names_of(substituted(line, k)).len() == 1,
{
    let lt = lhs_text(line, k);
    let rt = rhs_text(line, k);
    lemma_runs_split(lt, '=', rt, Seq::empty());
    let all = ident_runs(substituted(line, k));
    assert(all == ident_runs(lt) + ident_runs(rt));
    lemma_dedup_props(all);
    lemma_dedup_props(ident_runs(lt));
    lemma_dedup_props(ident_runs(rt));
    if names_of(substituted(line, k)).len() == 1 {
        assert forall|w: Seq<char>| names_of(lt).contains(w) implies names_of(substituted(line, k)).contains(w) by {
            assert(dedup(ident_runs(lt)).contains(w));
            assert(ident_runs(lt).contains(w));
            let i = choose|i: int| 0 <= i < ident_runs(lt).len() && ident_runs(lt)[i] == w;
            assert(all[i] == w);
            assert(all.contains(w));
        }
        assert forall|w: Seq<char>| names_of(rt).contains(w) implies names_of(substituted(line, k)).contains(w) by {
            assert(dedup(ident_runs(rt)).contains(w));
            assert(ident_runs(rt).contains(w));
            let i = choose|i: int| 0 <= i < ident_runs(rt).len() && ident_runs(rt)[i] == w;
            assert(all[i + ident_runs(lt).len()] == w);
            assert(all.contains(w));
        }
        lemma_one_name_bounds_part(names_of(lt), names_of(substituted(line, k)));
        lemma_one_name_bounds_part(names_of(rt), names_of(substituted(line, k)));
    }
}

/// One equation line after the known values have been written into it, with
/// the unknowns that are left in it and on each of its sides.
pub struct EqnParser {
    equation: String,
    eqn_vars: Vec<String>,
    lhs_vars: Vec<String>,
    rhs_vars: Vec<String>,
}

impl EqnParser {
    pub closed spec fn equation_text(&self) -> Seq<char> {
        self.equation@
    }

    pub closed spec fn whole(&self) -> Seq<Seq<char>> {
        views(self.eqn_vars@)
    }

    pub closed spec fn left(&self) -> Seq<Seq<char>> {
        views(self.lhs_vars@)
    }

    pub closed spec fn right(&self) -> Seq<Seq<char>> {
        views(self.rhs_vars@)
    }

    /// The unknowns are those of the stored equation, which holds one `'='`,
    /// and those of its two sides.
    pub open spec fn wf(&self) -> bool {
        &&& count_eq(self.equation_text()) == 1
        &&& self.whole() == names_of(self.equation_text())
        &&& self.left() == names_of(sides_of(self.equation_text()).0)
        &&& self.right() == names_of(sides_of(self.equation_text()).1)
    }

    /// The analysis of `line` against the known values: what `new` returns
    /// when the line holds one `'='`.
    pub open spec fn is_analysis_of(&self, line: Seq<char>, k: Seq<(Seq<char>, Seq<char>)>) -> bool {
        &&& self.equation_text() == substituted(line, k)
        &&& self.whole() == names_of(substituted(line, k))
        &&& self.left() == names_of(lhs_text(line, k))
        &&& self.right() == names_of(rhs_text(line, k))
    }

    /// Writes the known values into `equation` and finds the unknowns left.
    /// Fails when the line does not hold exactly one `'='`.
    pub fn new(equation: String, known_variables: &Knowns) -> (r: Result<EqnParser, ParseError>)
        requires
            known_variables.wf(),
        ensures
            r is Ok <==> count_eq(equation@) == 1,
            r matches Ok(p) ==> p.is_analysis_of(equation@, known_variables@) && p.wf(),
            r matches Ok(p) ==> forall|w: Seq<char>| #[trigger] p.whole().contains(w) <==> (names_of(equation@).contains(w)
                && !has_name(known_variables@, w)),
            r matches Ok(p) ==> (solvable(equation@, known_variables@) <==> p.whole().len() == 1),
            r matches Err(ParseError::NotOneEquals(l)) ==> l@ == equation@,
    {
        let (lhs, rhs) = match split_equation(equation.as_str()) {
            Some(parts) => parts,
            None => {
                return Err(ParseError::NotOneEquals(equation));
            },
        };
        let lhs = known_variables.substitute_into(lhs.as_str());
        let rhs = known_variables.substitute_into(rhs.as_str());
        let mut text = String::from_str(lhs.as_str());
        text.append("=");
        text.append(rhs.as_str());
        proof {
            reveal_strlit("=");
            assert(text@ =~= substituted(equation@, known_variables@));
            lemma_substituted_splits(equation@, known_variables@);
            lemma_solvable_iff_one_unknown(equation@, known_variables@);
        }
        let eqn_vars = extract(text.as_str());
        let lhs_vars = extract(lhs.as_str());
        let rhs_vars = extract(rhs.as_str());
        let ghost sub = text@;
        let p = EqnParser { equation: text, eqn_vars, lhs_vars, rhs_vars };
        assert(p.whole() == names_of(sub));
        assert forall|w: Seq<char>| #[trigger] p.whole().contains(w) <==> (names_of(equation@).contains(w)
            && !has_name(known_variables@, w)) by {
            lemma_unknowns_are_unknown_names(equation@, known_variables@, w);
        }
        Ok(p)
    }

    /// The equation with the known values written in.
    pub fn equation(&self) -> (r: &String)
        ensures
            r@ == self.equation_text(),
    {
        &self.equation
    }

    /// The distinct unknowns of the whole equation, in order of first occurrence.
    pub fn get_unknowns(&self) -> (r: Vec<String>)
        ensures
            views(r@) == self.whole(),
    {
        let mut r: Vec<String> = Vec::new();
        let mut i: usize = 0;
        while i < self.eqn_vars.len()
            invariant
                i <= self.eqn_vars@.len(),
                r@.len() == i,
                views(r@) == views(self.eqn_vars@).subrange(0, i as int),
            decreases self.eqn_vars@.len() - i,
        {
            let ghost pre = r@;
            let c = self.eqn_vars[i].clone();
            assert(c == self.eqn_vars@[i as int]);
            r.push(c);
            assert(r@ == pre.push(c));
            assert(r@.len() == i + 1);
            assert(views(r@)[i as int] == views(self.eqn_vars@)[i as int]);
            assert(views(r@) =~= views(self.eqn_vars@).subrange(0, i + 1));
            i = i + 1;
        }
        assert(views(r@) =~= self.whole());
        r
    }

    /// Every identifier run of the equation, repeats kept.
    pub fn get_variables(&self) -> (r: Vec<String>)
        ensures
            views(r@) == ident_runs(self.equation_text()),
    {
        identifier_runs(self.equation.as_str())
    }

    /// The distinct unknowns of the left side.
    pub fn lhs_unknowns(&self) -> (r: &Vec<String>)
        ensures
            views(r@) == self.left(),
    {
        &self.lhs_vars
    }

    /// The distinct unknowns of the right side.
    pub fn rhs_unknowns(&self) -> (r: &Vec<String>)
        ensures
            views(r@) == self.right(),
    {
        &self.rhs_vars
    }

    /// Whether the equation has exactly one unknown, and at most one on each side.
    pub fn is_solvable(&self) -> (r: bool)
        ensures
            r == (self.whole().len() == 1 && self.left().len() <= 1 && self.right().len() <= 1),
    {
        let eqn = self.eqn_vars.len();
        let lhs = self.lhs_vars.len();
        let rhs = self.rhs_vars.len();
        eqn == 1 && lhs <= 1 && rhs <= 1
    }

    /// The one unknown of a solvable equation.
    pub fn unknown(&self) -> (r: Option<String>)
        ensures
            self.whole().len() == 1 <==> r is Some,
            r matches Some(u) ==> u@ == self.whole()[0],
    {
        if self.eqn_vars.len() == 1 {
            Some(self.eqn_vars[0].clone())
        } else {
            None
        }
    }
}

} // verus!
