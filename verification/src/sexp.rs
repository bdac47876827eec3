//! The external expression parser and the structured values it yields.
//!
//! A validated token sequence is rendered to text and handed to the rsexp
//! crate, which parses it into an S-expression. The opaque parse tree is
//! flattened into a sequence of plain events (list opening, list closing,
//! atom text), and a verified builder turns the events into a `LispVal`,
//! classifying each atom's text as a boolean, a number or a symbol.

use vstd::prelude::*;
use crate::lexer::is_digit;
use crate::text::str_to_chars;

verus! {

/// rsexp's S-expression type, opaque to the library: either an atom (a byte
/// string) or a list of S-expressions.
#[verifier::external_type_specification]
#[verifier::external_body]
pub struct ExSexp(rsexp::Sexp);

/// A structured Lisp value.
#[derive(Debug)]
pub enum LispVal {
    /// an identifier or operator
    Symbol(String),
    /// a numeric literal, kept as its source text
    Number(String),
    /// a string literal's content
    String(String),
    /// a boolean
    Bool(bool),
    /// an ordered list of values
    List(Vec<LispVal>),
}

/// The mathematical value of a structured Lisp value: the same five shapes,
/// with texts as character sequences.
pub enum SLispVal {
    Symbol(Seq<char>),
    Number(Seq<char>),
    StringLit(Seq<char>),
    Bool(bool),
    List(Seq<SLispVal>),
}

impl LispVal {
    /// The mathematical value of this Lisp value.
    pub open spec fn model(self) -> SLispVal
        decreases self, 0int,
            via LispVal::model_decreases
    {
        match self {
            LispVal::Symbol(s) => SLispVal::Symbol(s@),
            LispVal::Number(s) => SLispVal::Number(s@),
            LispVal::String(s) => SLispVal::StringLit(s@),
            LispVal::Bool(b) => SLispVal::Bool(b),
            LispVal::List(items) => SLispVal::List(model_list(items@)),
        }
    }

    #[via_fn]
    proof fn model_decreases(self) {
        if let LispVal::List(items) = self {
            vstd::std_specs::vec::axiom_vec_decreases_to_view(items);
            assert(decreases_to!(self => items));
            assert(decreases_to!(items => items@));
        }
    }
}

/// The mathematical values of a sequence of Lisp values, element by element.
pub open spec fn model_list(items: Seq<LispVal>) -> Seq<SLispVal>
    decreases items, 1int,
        via model_list_decreases
{
    if items.len() == 0 {
        seq![]
    } else {
        seq![items[0].model()] + model_list(items.subrange(1, items.len() as int))
    }
}

#[via_fn]
proof fn model_list_decreases(items: Seq<LispVal>) {
    if items.len() > 0 {
        vstd::seq::axiom_seq_index_decreases(items, 0);
        vstd::seq::axiom_seq_subrange_decreases(items, 1, items.len() as int);
    }
}

/// `model_list` gives each element's mathematical value at its index.
pub proof fn lemma_model_list(items: Seq<LispVal>)
    ensures
        model_list(items).len() == items.len(),
        forall|i: int| 0 <= i < items.len() ==> #[trigger] model_list(items)[i] == items[i].model(),
    decreases items.len(),
{
    if items.len() > 0 {
        lemma_model_list(items.subrange(1, items.len() as int));
        assert forall|i: int| 0 <= i < items.len() implies #[trigger] model_list(items)[i]
            == items[i].model() by {
            if i > 0 {
                assert(model_list(items.subrange(1, items.len() as int))[i - 1] == items.subrange(
                    1,
                    items.len() as int,
                )[i - 1].model());
            }
        }
    }
}

impl Clone for LispVal {
    /// A deep copy with the same mathematical value.
    fn clone(&self) -> (r: Self)
        ensures
            r.model() == self.model(),
        decreases *self,
    {
        match self {
            LispVal::Symbol(s) => LispVal::Symbol(s.clone()),
            LispVal::Number(s) => LispVal::Number(s.clone()),
            LispVal::String(s) => LispVal::String(s.clone()),
            LispVal::Bool(b) => LispVal::Bool(*b),
            LispVal::List(items) => {
                let n = items.len();
                let mut out: Vec<LispVal> = Vec::new();
                let mut k: usize = 0;
                while k < n
                    invariant
                        *self == LispVal::List(*items),
                        k <= n,
                        n == items@.len(),
                        out@.len() == k,
                        forall|i: int|
                            0 <= i < k ==> (#[trigger] out@[i].model()) == items@[i].model(),
                    decreases n - k,
                {
                    proof {
                        vstd::std_specs::vec::axiom_vec_index_decreases(*items, k as int);
                        assert(decreases_to!(*self => (*self)->List_0));
                        assert(decreases_to!(*items => items@[k as int]));
                        assert(decreases_to!(*self => items@[k as int]));
                    }
                    out.push(items[k].clone());
                    k = k + 1;
                }
                let r = LispVal::List(out);
                proof {
                    lemma_model_list(out@);
                    lemma_model_list(items@);
                    assert(model_list(out@) =~= model_list(items@));
                }
                r
            },
        }
    }
}

/// One step of a flattened S-expression: a list opening, a list closing, or
/// an atom carrying its text.
#[derive(Debug, Clone)]
pub enum SexpEvent {
    Open,
    Close,
    Atom(String),
}

/// The mathematical value of an event.
pub enum SEvent {
    Open,
    Close,
    Atom(Seq<char>),
}

impl SexpEvent {
    /// The mathematical value of this event.
    pub open spec fn model(self) -> SEvent {
        match self {
            SexpEvent::Open => SEvent::Open,
            SexpEvent::Close => SEvent::Close,
            SexpEvent::Atom(s) => SEvent::Atom(s@),
        }
    }
}

// ---------------------------------------------------------------------------
// Trusted boundary: rsexp
// ---------------------------------------------------------------------------

/// Whether rsexp's grammar accepts the text as exactly one S-expression.
/// The answer is a function of the text alone.
pub uninterp spec fn sexp_text_wf(s: Seq<char>) -> bool;

/// The flattened parse of a text rsexp accepts: the events of its one
/// S-expression, in order. A function of the text alone.
pub uninterp spec fn sexp_events_of(s: Seq<char>) -> Seq<SEvent>;

/// Whether the text holds a backslash anywhere.
pub open spec fn has_backslash(s: Seq<char>) -> bool {
    exists|i: int| 0 <= i < s.len() && s[i] == '\\'
}

/// Whether the text holds a backslash anywhere.
pub fn contains_backslash(s: &str) -> (r: bool)
    ensures
        r == has_backslash(s@),
{
    let cs = str_to_chars(s);
    let n = cs.len();
    let mut i: usize = 0;
    while i < n
        invariant
            n == cs@.len(),
            cs@ == s@,
            i <= n,
            forall|j: int| 0 <= j < i ==> cs@[j] != '\\',
        decreases n - i,
    {
        if cs[i] == '\\' {
            return true;
        }
        i = i + 1;
    }
    false
}

/// The flattening half of `parse_to_events`, claiming nothing on its own:
/// appends an expression's events to `out` - an atom as its text, a list as
/// an opening, its elements' events, and a closing.
#[verifier::external_body]
fn sexp_events_into(s: &rsexp::Sexp, out: &mut Vec<SexpEvent>) {
    match s {
        rsexp::Sexp::Atom(a) => out.push(
            SexpEvent::Atom(String::from_utf8_lossy(a).into_owned()),
        ),
        rsexp::Sexp::List(items) => {
            out.push(SexpEvent::Open);
            for item in items {
                sexp_events_into(item, out);
            }
            out.push(SexpEvent::Close);
        },
    }
}

/// Relies on rsexp::from_slice: parses the text as exactly one
/// S-expression, succeeding precisely on the texts its grammar accepts, and
/// hands the expression out flattened into events; a failure is carried as
/// the parse error's rendering. An accepted text's events always describe
/// one whole value: an atom is one event, and a parsed list flattens to a
/// balanced opening, elements, closing. Texts holding a backslash are left
/// out: rsexp decodes a backslash followed by three decimal digits by
/// summing them in an eight-bit value, which overflows (and, with overflow
/// checks on, aborts) for escapes above 255; with no backslash in the text
/// no escape is ever decoded.
#[verifier::external_body]
pub(crate) fn parse_to_events(s: &str) -> (r: Result<Vec<SexpEvent>, String>)
    requires
        !has_backslash(s@),
    ensures
        r is Ok <==> sexp_text_wf(s@),
        (r matches Ok(evs) ==> events_model(evs@) == sexp_events_of(s@)),
        r is Ok ==> spec_build(sexp_events_of(s@), 0).0 is Some,
{
    match rsexp::from_slice(s.as_bytes()) {
        Ok(sx) => {
            let mut out: Vec<SexpEvent> = Vec::new();
            sexp_events_into(&sx, &mut out);
            Ok(out)
        },
        Err(e) => Err(format!("{:?}", e)),
    }
}

// ---------------------------------------------------------------------------
// Atom classification
// ---------------------------------------------------------------------------

/// Whether the characters after an optional sign are at least one digit and
/// at most one decimal point, with `seen_digit`/`seen_dot` carrying what was
/// already read.
pub open spec fn num_body_ok(b: Seq<char>, seen_digit: bool, seen_dot: bool) -> bool
    decreases b.len(),
{
    if b.len() == 0 {
        seen_digit
    } else if is_digit(b[0]) {
        num_body_ok(b.drop_first(), true, seen_dot)
    } else if b[0] == '.' && !seen_dot {
        num_body_ok(b.drop_first(), seen_digit, true)
    } else {
        false
    }
}

/// Whether a text is a numeric literal: an optional sign, then digits with
/// at most one decimal point, at least one digit in all.
pub open spec fn is_number_text(s: Seq<char>) -> bool {
    if s.len() > 0 && (s[0] == '+' || s[0] == '-') {
        num_body_ok(s.drop_first(), false, false)
    } else {
        num_body_ok(s, false, false)
    }
}

/// The classification of an atom's text: `#t` and `#f` are the booleans, a
/// numeric literal is a number, anything else is a symbol.
pub open spec fn spec_classify_atom(s: Seq<char>) -> SLispVal {
    if s == seq!['#', 't'] {
        SLispVal::Bool(true)
    } else if s == seq!['#', 'f'] {
        SLispVal::Bool(false)
    } else if is_number_text(s) {
        SLispVal::Number(s)
    } else {
        SLispVal::Symbol(s)
    }
}

/// Classifies an atom's text into a structured value.
pub fn classify_atom(s: &String) -> (r: LispVal)
    ensures
        r.model() == spec_classify_atom(s@),
{
    let cs = str_to_chars(s.as_str());
    let n = cs.len();
    if n == 2 && cs[0] == '#' && cs[1] == 't' {
        proof {
            assert(s@ =~= seq!['#', 't']);
        }
        LispVal::Bool(true)
    } else if n == 2 && cs[0] == '#' && cs[1] == 'f' {
        proof {
            assert(s@ =~= seq!['#', 'f']);
        }
        LispVal::Bool(false)
    } else {
        proof {
            if s@ == seq!['#', 't'] || s@ == seq!['#', 'f'] {
                assert(n == 2 && cs@[0] == '#' && (cs@[1] == 't' || cs@[1] == 'f'));
            }
        }
        let start: usize = if n > 0 && (cs[0] == '+' || cs[0] == '-') {
            1
        } else {
            0
        };
        let is_num = num_body_check(&cs, start);
        proof {
            if n > 0 && (cs@[0] == '+' || cs@[0] == '-') {
                assert(cs@.skip(1) =~= s@.drop_first());
            } else {
                assert(cs@.skip(0) =~= s@);
            }
        }
        if is_num {
            LispVal::Number(s.clone())
        } else {
            LispVal::Symbol(s.clone())
        }
    }
}

/// Whether the characters after an optional sign are digits with at most
/// one decimal point and at least one digit.
fn num_body_check(cs: &Vec<char>, start: usize) -> (r: bool)
    requires
        start <= cs@.len(),
    ensures
        r == num_body_ok(cs@.skip(start as int), false, false),
{
    let n = cs.len();
    let mut seen_digit = false;
    let mut seen_dot = false;
    let mut j = start;
    loop
        invariant_except_break
            start <= j <= n,
            n == cs@.len(),
            num_body_ok(cs@.skip(start as int), false, false) == num_body_ok(
                cs@.skip(j as int),
                seen_digit,
                seen_dot,
            ),
        ensures
            num_body_ok(cs@.skip(start as int), false, false) == (j == n && seen_digit),
        decreases n - j,
    {
        if j == n {
            proof {
                assert(cs@.skip(j as int).len() == 0);
            }
            break;
        }
        let c = cs[j];
        proof {
            assert(cs@.skip(j as int)[0] == cs@[j as int]);
            assert(cs@.skip(j as int).drop_first() =~= cs@.skip(j as int + 1));
        }
        if c >= '0' && c <= '9' {
            seen_digit = true;
        } else if c == '.' && !seen_dot {
            seen_dot = true;
        } else {
            proof {
                assert(!num_body_ok(cs@.skip(j as int), seen_digit, seen_dot));
            }
            j = n;
            seen_digit = false;
            break;
        }
        j = j + 1;
    }
    j == n && seen_digit
}

// ---------------------------------------------------------------------------
// Building values from events
// ---------------------------------------------------------------------------

/// The mathematical values of a sequence of events.
pub open spec fn events_model(s: Seq<SexpEvent>) -> Seq<SEvent> {
    s.map_values(|e: SexpEvent| e.model())
}

/// The value built from the events starting at `i`, and the index just past
/// what was consumed: an atom is classified, an opening begins a list, and a
/// closing or the end of the events is no value.
pub open spec fn spec_build(events: Seq<SEvent>, i: int) -> (Option<SLispVal>, int)
    decreases events.len() - i, 0int,
{
    if !(0 <= i < events.len()) {
        (None::<SLispVal>, i)
    } else {
        match events[i] {
            SEvent::Atom(s) => (Some(spec_classify_atom(s)), i + 1),
            SEvent::Close => (None::<SLispVal>, i),
            SEvent::Open => {
                let r = spec_build_list(events, i + 1);
                if r.2 {
                    (Some(SLispVal::List(r.0)), r.1)
                } else {
                    (None::<SLispVal>, r.1)
                }
            },
        }
    }
}

/// The list elements built from the events starting at `i` up to a closing
/// event, the index just past the closing, and whether the closing was
/// reached; an element that is no value, or that consumes nothing, ends the
/// list unsuccessfully.
pub open spec fn spec_build_list(events: Seq<SEvent>, i: int) -> (Seq<SLispVal>, int, bool)
    decreases events.len() - i, 1int,
{
    if !(0 <= i < events.len()) {
        (Seq::<SLispVal>::empty(), i, false)
    } else if events[i] is Close {
        (Seq::<SLispVal>::empty(), i + 1, true)
    } else {
        let r = spec_build(events, i);
        match r.0 {
            None => (Seq::<SLispVal>::empty(), r.1, false),
            Some(v) => if !(i < r.1 <= events.len()) {
                (Seq::<SLispVal>::empty(), r.1, false)
            } else {
                let rest = spec_build_list(events, r.1);
                (seq![v] + rest.0, rest.1, rest.2)
            },
        }
    }
}

/// Builds the value that the events from `i` describe, returning it (or
/// nothing, when they describe none) and the index just past what was
/// consumed.
pub fn build_val(events: &Vec<SexpEvent>, i: usize) -> (r: (Option<LispVal>, usize))
    requires
        i as int <= events@.len(),
    ensures
        ({
            let m = spec_build(events_model(events@), i as int);
            &&& r.1 as int == m.1
            &&& (i as int) <= (r.1 as int) <= events@.len()
            &&& (r.0 is Some <==> m.0 is Some)
            &&& (r.0 is Some ==> (i as int) < (r.1 as int))
            &&& (r.0 is Some ==> r.0->0.model() == m.0->0)
        }),
    decreases events@.len() - i, 0int,
{
    let n = events.len();
    if i >= n {
        (None, i)
    } else {
        match &events[i] {
            SexpEvent::Atom(s) => {
                let v = classify_atom(s);
                (Some(v), i + 1)
            },
            SexpEvent::Close => (None, i),
            SexpEvent::Open => {
                let (items, j, ok) = build_list(events, i + 1);
                if ok {
                    (Some(LispVal::List(items)), j)
                } else {
                    (None, j)
                }
            },
        }
    }
}

/// Builds list elements from the events starting at `i` until a closing
/// event, returning them, the index just past the closing, and whether the
/// closing was reached.
pub fn build_list(events: &Vec<SexpEvent>, i: usize) -> (r: (Vec<LispVal>, usize, bool))
    requires
        i as int <= events@.len(),
    ensures
        ({
            let m = spec_build_list(events_model(events@), i as int);
            &&& r.1 as int == m.1
            &&& (i as int) <= (r.1 as int) <= events@.len()
            &&& r.2 == m.2
            &&& model_list(r.0@) == m.0
        }),
    decreases events@.len() - i, 1int,
{
    let n = events.len();
    if i >= n {
        (Vec::new(), i, false)
    } else if matches!(&events[i], SexpEvent::Close) {
        (Vec::new(), i + 1, true)
    } else {
        let (v0, j) = build_val(events, i);
        match v0 {
            None => (Vec::new(), j, false),
            Some(v) => {
                let (rest, k, ok) = build_list(events, j);
                let ghost rest_view = rest@;
                let mut out: Vec<LispVal> = Vec::new();
                out.push(v);
                let mut rest = rest;
                out.append(&mut rest);
                proof {
                    assert(out@ =~= seq![v] + rest_view);
                    lemma_model_list_prepend(v, rest_view);
                }
                (out, k, ok)
            },
        }
    }
}

/// Prepending an element prepends its mathematical value.
pub proof fn lemma_model_list_prepend(v: LispVal, rest: Seq<LispVal>)
    ensures
        model_list(seq![v] + rest) == seq![v.model()] + model_list(rest),
{
    let whole = seq![v] + rest;
    assert(whole.len() == 1 + rest.len());
    assert(whole[0] == v);
    assert(whole.subrange(1, whole.len() as int) =~= rest);
}

} // verus!
