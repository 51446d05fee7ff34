use vstd::prelude::*;
use crate::analyze::{solvable, substituted, EqnParser, ParseError};
use crate::extract::names_of;
use crate::knowns::{has_name, is_decimal_text, with_value, Knowns};
use crate::text::{count_eq, count_equals, lines_of, split_lines};

verus! {

/// Whether a pass stops at `line`: it holds an `'='`, and either it cannot be
/// split at one `'='` or it has one unknown left to solve.
pub open spec fn actionable(line: Seq<char>, k: Seq<(Seq<char>, Seq<char>)>) -> bool {
    count_eq(line) >= 1 && (count_eq(line) != 1 || solvable(line, k))
}

/// The first line at or after `from` where a pass stops; `lines.len()` if none.
pub open spec fn first_actionable(lines: Seq<Seq<char>>, k: Seq<(Seq<char>, Seq<char>)>, from: int) -> int
    decreases lines.len() - from,
{
    if from < 0 || from >= lines.len() {
        lines.len() as int
    } else if actionable(lines[from], k) {
        from
    } else {
        first_actionable(lines, k, from + 1)
    }
}

pub proof fn lemma_first_actionable(lines: Seq<Seq<char>>, k: Seq<(Seq<char>, Seq<char>)>, from: int)
    requires
        0 <= from,
    ensures
        from <= first_actionable(lines, k, from) <= lines.len() || from > lines.len(),
        first_actionable(lines, k, from) < lines.len() ==> actionable(lines[first_actionable(lines, k, from)], k),
        forall|i: int| from <= i < first_actionable(lines, k, from) ==> !actionable(#[trigger] lines[i], k),
    decreases lines.len() - from,
{
    if from < lines.len() && !actionable(lines[from], k) {
        lemma_first_actionable(lines, k, from + 1);
    }
}

/// Once no line is left to solve at a table, another pass from the first
/// line stops at none: it asks for nothing, so it records nothing and
/// overwrites nothing.
pub proof fn lemma_extra_pass_stops_nowhere(lines: Seq<Seq<char>>, k: Seq<(Seq<char>, Seq<char>)>, from: int)
    requires
        0 <= from,
        forall|i: int| 0 <= i < lines.len() ==> !actionable(#[trigger] lines[i], k),
    ensures
        first_actionable(lines, k, from) == lines.len(),
    decreases lines.len() - from,
{
    if from < lines.len() {
        assert(!actionable(lines[from], k));
        lemma_extra_pass_stops_nowhere(lines, k, from + 1);
    }
}

/// One more pass, counted up to the largest count that fits.
pub open spec fn next_count(n: nat) -> nat {
    if n < u64::MAX { n + 1 } else { n }
}

/// What the driver asks for next.
#[derive(Debug, PartialEq, Eq)]
pub enum Step {
    /// Solve `equation` (known values written in) for its one `unknown`.
    Solve { equation: String, unknown: String },
    /// A pass added no value: the values are final.
    Converged,
}

/// Whether `r` is what a pass stopping at `line` yields.
pub open spec fn step_for(line: Seq<char>, k: Seq<(Seq<char>, Seq<char>)>, r: Result<Step, ParseError>) -> bool {
    if count_eq(line) != 1 {
        r matches Err(ParseError::NotOneEquals(l)) && l@ == line
    } else {
        r matches Ok(Step::Solve { equation, unknown }) && equation@ == substituted(line, k)
            && unknown@ == names_of(substituted(line, k))[0]
    }
}

/// The resolution driver: it runs passes over the equation lines, asking for
/// each line that has one unknown left to be solved, and repeats passes until
/// one of them adds no value.
pub struct Resolver {
    lines: Vec<String>,
    known: Knowns,
    pos: usize,
    start_len: usize,
    passes: u64,
    converged: bool,
    asked: usize,
}

impl Resolver {
    pub closed spec fn lines_view(&self) -> Seq<Seq<char>> {
        self.lines@.map_values(|l: String| l@)
    }

    pub closed spec fn known_view(&self) -> Seq<(Seq<char>, Seq<char>)> {
        self.known@
    }

    /// Index of the next line the current pass looks at.
    pub closed spec fn pos(&self) -> nat {
        self.pos as nat
    }

    /// How many values there were when the current pass started.
    pub closed spec fn start_len(&self) -> nat {
        self.start_len as nat
    }

    pub closed spec fn pass_count(&self) -> nat {
        self.passes as nat
    }

    pub closed spec fn is_converged(&self) -> bool {
        self.converged
    }

    /// How many lines the current pass has asked to be solved.
    pub closed spec fn asked(&self) -> nat {
        self.asked as nat
    }

    pub closed spec fn wf(&self) -> bool {
        &&& self.known.wf()
        &&& self.pos <= self.lines@.len()
        &&& self.start_len <= self.known@.len()
        &&& self.passes >= 1
        &&& self.asked <= self.pos
        &&& (self.asked == 0 && self.known@.len() == self.start_len) ==> forall|i: int|
            0 <= i < self.pos ==> !actionable(#[trigger] self.lines_view()[i], self.known@)
    }

    /// A driver at the start of its first pass, with no value known.
    pub fn new(lines: Vec<String>) -> (r: Resolver)
        ensures
            r.wf(),
            r.lines_view() == lines@.map_values(|l: String| l@),
            r.known_view() == Seq::<(Seq<char>, Seq<char>)>::empty(),
            r.pos() == 0,
            r.start_len() == 0,
            r.pass_count() == 1,
            r.asked() == 0,
            !r.is_converged(),
    {
        Resolver { lines, known: Knowns::new(), pos: 0, start_len: 0, passes: 1, converged: false, asked: 0 }
    }

    /// A driver for the equations of `text`, one per line.
    pub fn from_text(text: &str) -> (r: Resolver)
        ensures
            r.wf(),
            r.lines_view() == lines_of(text@),
            r.known_view() == Seq::<(Seq<char>, Seq<char>)>::empty(),
            r.pos() == 0,
            r.start_len() == 0,
            r.pass_count() == 1,
            r.asked() == 0,
            !r.is_converged(),
    {
        Resolver::new(split_lines(text))
    }

    /// The values resolved so far.
    pub fn known(&self) -> (r: &Knowns)
        ensures
            r@ == self.known_view(),
            self.wf() ==> r.wf(),
    {
        &self.known
    }

    /// How many lines the current pass has asked to be solved.
    pub fn asked_in_pass(&self) -> (r: usize)
        ensures
            r == self.asked(),
    {
        self.asked
    }

    /// Number of passes started.
    pub fn passes(&self) -> (r: u64)
        ensures
            r == self.pass_count(),
    {
        self.passes
    }

    /// The first line at or after `from` where a pass stops.
    fn scan(&self, from: usize) -> (r: usize)
        requires
            self.wf(),
            from <= self.lines@.len(),
        ensures
            r == first_actionable(self.lines_view(), self.known_view(), from as int),
            r <= self.lines@.len(),
    {
        let mut i = from;
        while i < self.lines.len()
            invariant
                self.wf(),
                from <= i <= self.lines@.len(),
                first_actionable(self.lines_view(), self.known_view(), from as int)
                    == first_actionable(self.lines_view(), self.known_view(), i as int),
            decreases self.lines@.len() - i,
        {
            let line = &self.lines[i];
            assert(self.lines_view()[i as int] == line@);
            let n = count_equals(line.as_str());
            if n >= 1 {
                if n != 1 {
                    return i;
                }
                match EqnParser::new(line.clone(), &self.known) {
                    Ok(p) => {
                        if p.is_solvable() {
                            return i;
                        }
                    },
                    Err(_) => {},
                }
            }
            i = i + 1;
        }
        i
    }

    /// The step for line `i`, where a pass stops.
    fn step_at(&self, i: usize) -> (r: Result<Step, ParseError>)
        requires
            self.wf(),
            i < self.lines@.len(),
            actionable(self.lines_view()[i as int], self.known_view()),
        ensures
            step_for(self.lines_view()[i as int], self.known_view(), r),
    {
        let line = self.lines[i].clone();
        assert(self.lines_view()[i as int] == line@);
        match EqnParser::new(line, &self.known) {
            Ok(p) => {
                let equation = p.equation().clone();
                match p.unknown() {
                    Some(unknown) => Ok(Step::Solve { equation, unknown }),
                    None => Ok(Step::Converged),
                }
            },
            Err(e) => Err(e),
        }
    }

    /// Goes on with the current pass to the next line that needs solving.
    /// At the end of a pass that added a value a new pass starts; at the end
    /// of one that added none the driver has converged, and stays so.
    pub fn next_step(&mut self) -> (r: Result<Step, ParseError>)
        requires
            old(self).wf(),
        ensures
            final(self).wf(),
            final(self).lines_view() == old(self).lines_view(),
            final(self).known_view() == old(self).known_view(),
            ({
                let lines = old(self).lines_view();
                let k = old(self).known_view();
                let j = first_actionable(lines, k, old(self).pos() as int);
                let j0 = first_actionable(lines, k, 0);
                if old(self).is_converged() {
                    r matches Ok(Step::Converged) && *final(self) == *old(self)
                } else if j < lines.len() {
                    step_for(lines[j], k, r) && final(self).pos() == j + 1
                        && final(self).start_len() == old(self).start_len()
                        && final(self).pass_count() == old(self).pass_count() && !final(self).is_converged()
                } else if k.len() > old(self).start_len() && j0 < lines.len() {
                    step_for(lines[j0], k, r) && final(self).pos() == j0 + 1
                        && final(self).start_len() == k.len()
                        && final(self).pass_count() == next_count(old(self).pass_count()) && !final(self).is_converged()
                } else {
                    (old(self).asked() == 0 || k.len() > old(self).start_len()) ==> forall|i: int|
                        0 <= i < lines.len() ==> !actionable(#[trigger] lines[i], k)
                }
            }),
            ({
                let lines = old(self).lines_view();
                let k = old(self).known_view();
                let j = first_actionable(lines, k, old(self).pos() as int);
                let j0 = first_actionable(lines, k, 0);
                if old(self).is_converged() {
                    true
                } else if j < lines.len() {
                    true
                } else if k.len() > old(self).start_len() && j0 < lines.len() {
                    true
                } else {
                    r matches Ok(Step::Converged) && final(self).is_converged()
                        && final(self).pos() == lines.len()
                        && final(self).pass_count() == (if k.len() > old(self).start_len() {
                            next_count(old(self).pass_count())
                        } else {
                            old(self).pass_count()
                        })
                }
            }),
    {
        if self.converged {
            return Ok(Step::Converged);
        }
        let j = self.scan(self.pos);
        proof {
            lemma_first_actionable(self.lines_view(), self.known_view(), self.pos as int);
            lemma_first_actionable(self.lines_view(), self.known_view(), 0);
        }
        if j < self.lines.len() {
            self.pos = j + 1;
            self.asked = self.asked + 1;
            return self.step_at(j);
        }
        if self.known.len() > self.start_len {
            self.start_len = self.known.len();
            self.passes = if self.passes < u64::MAX { self.passes + 1 } else { self.passes };
            self.asked = 0;
            self.pos = 0;
            let j0 = self.scan(0);
            if j0 < self.lines.len() {
                self.pos = j0 + 1;
                self.asked = 1;
                return self.step_at(j0);
            }
            assert forall|i: int| 0 <= i < self.lines_view().len() implies !actionable(
                #[trigger] self.lines_view()[i],
                self.known@,
            ) by {}
        }
        self.pos = self.lines.len();
        self.converged = true;
        Ok(Step::Converged)
    }

    /// Records the value found for `name`, unless it already has one.
    /// Returns whether it was added.
    pub fn record(&mut self, name: String, value: String) -> (added: bool)
        requires
            old(self).wf(),
        ensures
            final(self).wf(),
            final(self).lines_view() == old(self).lines_view(),
            final(self).pos() == old(self).pos(),
            final(self).start_len() == old(self).start_len(),
            final(self).pass_count() == old(self).pass_count(),
            final(self).is_converged() == old(self).is_converged(),
            final(self).asked() == old(self).asked(),
            added == (!has_name(old(self).known_view(), name@) && is_decimal_text(value@)),
            final(self).known_view() == with_value(old(self).known_view(), name@, value@),
    {
        let ghost k0 = self.known@;
        let added = self.known.insert(name, value);
        assert(added || self.known@ == k0);
        assert(added ==> self.known@.len() > k0.len());
        assert(self.lines_view() == old(self).lines_view());
        assert(old(self).known@ == k0);
        added
    }
}

} // verus!
