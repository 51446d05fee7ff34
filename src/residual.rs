use vstd::prelude::*;
use vstd::string::*;
use crate::text::{chars_of, lemma_join_sides, no_eq, blank, count_eq, is_blank, replace, replace_all, sides_of, split_equation};

verus! {

#[verifier::external_type_specification]
#[verifier::external_body]
pub struct ExRPNExpr(shunting::RPNExpr);

/// Whether the expression parser accepts `s`.
pub uninterp spec fn parses(s: Seq<char>) -> bool;

/// Whether `s` holds no ASCII digit directly followed by `'i'`. The parser's
/// tokenizer reads such an `i` as an imaginary suffix of the number and then
/// fails to convert that number, so it cannot be handed such a text.
pub open spec fn no_imaginary_suffix(s: Seq<char>) -> bool {
    forall|i: int| 0 <= i < s.len() - 1 ==> !('0' <= #[trigger] s[i] <= '9' && s[i + 1] == 'i')
}

/// Whether `s` holds no ASCII digit directly followed by `'i'`.
pub fn has_no_imaginary_suffix(s: &str) -> (r: bool)
    ensures
        r == no_imaginary_suffix(s@),
{
    let sv = chars_of(s);
    let mut i: usize = 0;
    while i < sv.len() && i + 1 < sv.len()
        invariant
            sv@ == s@,
            i <= sv@.len(),
            forall|j: int| 0 <= j < i && j < s@.len() - 1 ==> !('0' <= #[trigger] s@[j] <= '9' && s@[j + 1] == 'i'),
        decreases sv@.len() - i,
    {
        if '0' <= sv[i] && sv[i] <= '9' && sv[i + 1] == 'i' {
            return false;
        }
        i = i + 1;
    }
    true
}

/// Relies on shunting::ShuntingParser::parse_str: turns an expression into
/// postfix form, and whether it accepts the text depends on the text alone.
/// Its tokenizer panics on a number with an `i` suffix, hence the `requires`.
#[verifier::external_body]
fn parse_expr(s: &str) -> (r: Result<shunting::RPNExpr, String>)
    requires
        no_imaginary_suffix(s@),
    ensures
        r is Ok <==> parses(s@),
{
    shunting::ShuntingParser::parse_str(s)
}

/// Why a side of an equation could not be evaluated.
#[derive(Debug, PartialEq, Eq)]
pub enum EvaluationError {
    /// The text does not split into two sides at one `'='`.
    NoSides,
    /// A side is empty, so it has no value.
    EmptySide(String),
    /// The parser refused a side; its message.
    Malformed(String),
    /// Evaluating a parsed side failed; its message.
    Rejected(String),
}

/// The two sides of an equation at one trial value of its unknown, parsed and
/// ready to evaluate. The residual is the absolute difference of their values.
pub struct Residual {
    pub lhs_text: String,
    pub rhs_text: String,
    pub lhs: shunting::RPNExpr,
    pub rhs: shunting::RPNExpr,
}

/// The equation with the trial value written in place of the unknown.
pub open spec fn trial_text(equation: Seq<char>, unknown: Seq<char>, x: Seq<char>) -> Seq<char> {
    replace_all(equation, unknown, x)
}

/// The line `x = ` has no right side: whatever trial value without `'='` is
/// written in for `x`, the right side stays blank, so evaluating it is refused
/// as an empty side rather than read as zero.
pub proof fn lemma_empty_right_side_refused(v: Seq<char>)
    requires
        no_eq(v),
    ensures
        ({
            let t = trial_text(seq!['x', ' ', '=', ' '], seq!['x'], v);
            count_eq(t) == 1 && blank(sides_of(t).1)
        }),
{
    let s = seq!['x', ' ', '=', ' '];
    let p = seq!['x'];
    let s1 = s.subrange(1, 4);
    let s2 = s1.subrange(1, 3);
    let s3 = s2.subrange(1, 2);
    let s4 = s3.subrange(1, 1);
    assert(s.subrange(0, 1) =~= p);
    assert(s1 =~= seq![' ', '=', ' ']);
    assert(s1.subrange(0, 1) != p) by {
        assert(s1.subrange(0, 1)[0] == ' ');
    }
    assert(s2 =~= seq!['=', ' ']);
    assert(s2.subrange(0, 1) != p) by {
        assert(s2.subrange(0, 1)[0] == '=');
    }
    assert(s3 =~= seq![' ']);
    assert(s3.subrange(0, 1) != p) by {
        assert(s3.subrange(0, 1)[0] == ' ');
    }
    assert(replace_all(s4, p, v) == s4);
    assert(replace_all(s3, p, v) == seq![s3[0]] + s4);
    assert(replace_all(s2, p, v) == seq![s2[0]] + replace_all(s3, p, v));
    assert(replace_all(s1, p, v) == seq![s1[0]] + replace_all(s2, p, v));
    assert(replace_all(s, p, v) == v + replace_all(s1, p, v));
    let a = v + seq![' '];
    let b = seq![' '];
    assert(replace_all(s, p, v) =~= a + seq!['='] + b);
    assert(no_eq(a)) by {
        assert forall|i: int| 0 <= i < a.len() implies a[i] != '=' by {
            if i < v.len() {
                assert(a[i] == v[i]);
            }
        }
    }
    lemma_join_sides(a, b);
}

/// Writes the trial value `x` (decimal text) in place of every occurrence of
/// `unknown`, splits the result at its `'='` and parses both sides.
pub fn residual_sides(equation: &str, unknown: &str, x: &str) -> (r: Result<Residual, EvaluationError>)
    ensures
        ({
            let t = trial_text(equation@, unknown@, x@);
            let (l, rt) = sides_of(t);
            match r {
                Ok(res) => count_eq(t) == 1 && res.lhs_text@ == l && res.rhs_text@ == rt && !blank(l)
                    && !blank(rt) && no_imaginary_suffix(l) && no_imaginary_suffix(rt) && parses(l)
                    && parses(rt),
                Err(EvaluationError::NoSides) => count_eq(t) != 1,
                Err(EvaluationError::EmptySide(s)) => count_eq(t) == 1 && (blank(l) || blank(rt))
                    && s@ == (if blank(l) { l } else { rt }),
                Err(EvaluationError::Malformed(_)) => count_eq(t) == 1 && !blank(l) && !blank(rt)
                    && (!no_imaginary_suffix(l) || !no_imaginary_suffix(rt) || !parses(l) || !parses(rt)),
                Err(EvaluationError::Rejected(_)) => false,
            }
        }),
{
    let t = replace(equation, unknown, x);
    let (l, rt) = match split_equation(t.as_str()) {
        Some(parts) => parts,
        None => {
            return Err(EvaluationError::NoSides);
        },
    };
    if is_blank(l.as_str()) {
        return Err(EvaluationError::EmptySide(l));
    }
    if is_blank(rt.as_str()) {
        return Err(EvaluationError::EmptySide(rt));
    }
    if !has_no_imaginary_suffix(l.as_str()) || !has_no_imaginary_suffix(rt.as_str()) {
        return Err(EvaluationError::Malformed(String::from_str("a number with an imaginary suffix")));
    }
    let lhs = match parse_expr(l.as_str()) {
        Ok(e) => e,
        Err(msg) => {
            return Err(EvaluationError::Malformed(msg));
        },
    };
    let rhs = match parse_expr(rt.as_str()) {
        Ok(e) => e,
        Err(msg) => {
            return Err(EvaluationError::Malformed(msg));
        },
    };
    Ok(Residual { lhs_text: l, rhs_text: rt, lhs, rhs })
}

} // verus!
