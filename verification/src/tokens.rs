//! The lexical token tree: expression nodes as the parser produces them
//! and the resolver consumes them, and the parser itself.

use vstd::prelude::*;

use crate::errors::SyntaxError;
use crate::nameres::{expsv_wf, expv_wf};

verus! {

broadcast use
    vstd::seq::axiom_seq_index_decreases,
    vstd::seq::axiom_seq_subrange_decreases,
    vstd::std_specs::vec::axiom_vec_decreases_to_view;

/// A bare identifier appearing in source text.
#[derive(Debug, PartialEq, Eq)]
pub struct Sym(pub String);

impl View for Sym {
    type V = Seq<char>;

    open spec fn view(&self) -> Seq<char> {
        self.0@
    }
}

/// A dotted chain of symbols, as written at the head of a call expression.
#[derive(Debug, PartialEq, Eq)]
pub struct Path(pub Vec<Sym>);

impl View for Path {
    type V = Seq<Seq<char>>;

    open spec fn view(&self) -> Seq<Seq<char>> {
        self.0@.map_values(|s: Sym| s@)
    }
}

/// A literal value; the source spelling is kept verbatim.
#[derive(Debug, PartialEq, Eq)]
pub enum Lit {
    Str(String),
    Int(String),
    Float(String),
}

impl Clone for Lit {
    /// Copies the literal, keeping its spelling.
    fn clone(&self) -> (r: Self)
        ensures
            r == *self,
    {
        match self {
            Lit::Str(s) => Lit::Str(s.clone()),
            Lit::Int(s) => Lit::Int(s.clone()),
            Lit::Float(s) => Lit::Float(s.clone()),
        }
    }
}

/// Ghost mirror of a literal value.
pub enum LitV {
    Str(Seq<char>),
    Int(Seq<char>),
    Float(Seq<char>),
}

impl View for Lit {
    type V = LitV;

    open spec fn view(&self) -> LitV {
        match self {
            Lit::Str(s) => LitV::Str(s@),
            Lit::Int(s) => LitV::Int(s@),
            Lit::Float(s) => LitV::Float(s@),
        }
    }
}

/// A call expression: a dotted path applied to an ordered argument list.
#[derive(Debug, PartialEq, Eq)]
pub struct Call {
    pub path: Path,
    pub args: Vec<Exp>,
}

/// An expression without its optional binding name.
#[derive(Debug, PartialEq, Eq)]
pub enum AnonExp {
    Call(Call),
    Literal(Lit),
}

/// One expression node: an anonymous expression plus an optional bound name.
#[derive(Debug, PartialEq, Eq)]
pub struct Exp(pub AnonExp, pub Option<Sym>);

/// Ghost mirror of an anonymous expression.
pub enum AnonV {
    Call { path: Seq<Seq<char>>, args: Seq<ExpV> },
    Literal(LitV),
}

/// Ghost mirror of an expression node.
pub struct ExpV {
    pub anon: AnonV,
    pub name: Option<Seq<char>>,
}

/// The ghost value of one expression node.
pub open spec fn exp_view(e: Exp) -> ExpV
    decreases e,
{
    ExpV {
        anon: match e.0 {
            AnonExp::Call(c) => AnonV::Call { path: c.path@, args: exps_view(c.args@) },
            AnonExp::Literal(l) => AnonV::Literal(l@),
        },
        name: match e.1 {
            Some(s) => Some(s@),
            None => None,
        },
    }
}

/// The ghost value of a sequence of expression nodes, element by element.
pub open spec fn exps_view(s: Seq<Exp>) -> Seq<ExpV>
    decreases s,
{
    if s.len() == 0 {
        Seq::empty()
    } else {
        seq![exp_view(s[0])] + exps_view(s.subrange(1, s.len() as int))
    }
}

impl View for Exp {
    type V = ExpV;

    open spec fn view(&self) -> ExpV {
        exp_view(*self)
    }
}

pub broadcast proof fn lemma_exps_view(s: Seq<Exp>)
    ensures
        (#[trigger] exps_view(s)).len() == s.len(),
        forall|i: int| 0 <= i < s.len() ==> exps_view(s)[i] == exp_view(s[i]),
    decreases s.len(),
{
    if s.len() > 0 {
        let rest = s.subrange(1, s.len() as int);
        lemma_exps_view(rest);
        assert forall|i: int| 0 <= i < s.len() implies exps_view(s)[i] == exp_view(s[i]) by {
            if i > 0 {
                assert(rest[i - 1] == s[i]);
                assert(exps_view(s)[i] == exps_view(rest)[i - 1]);
            }
        }
    }
}

impl Path {
    /// The single segment of a one-segment path, and `None` for any longer
    /// path.
    pub fn only_segment(&self) -> (r: Option<&String>)
        ensures
            match r {
                Some(s) => self@.len() == 1 && s@ == self@[0],
                None => self@.len() != 1,
            },
    {
        if self.0.len() == 1 {
            Some(&self.0[0].0)
        } else {
            None
        }
    }

    /// The first segment of the path.
    pub fn head(&self) -> (r: &String)
        requires
            self@.len() >= 1,
        ensures
            r@ == self@[0],
    {
        &self.0[0].0
    }

    /// The dotted rendering of the path, with a `.` between segments.
    pub fn to_string(&self) -> (r: String)
        ensures
            r@ == path_join(self@),
    {
        let mut out = String::new();
        let n = self.0.len();
        let mut i: usize = 0;
        while i < n
            invariant
                0 <= i <= n,
                n == self@.len(),
                out@ == path_join(self@.subrange(0, i as int)),
            decreases n - i,
        {
            if i > 0 {
                out.append(".");
            }
            out.append(self.0[i].0.as_str());
            proof {
                reveal_strlit(".");
                lemma_path_join_step(self@, i as int);
            }
            i = i + 1;
        }
        proof {
            assert(self@.subrange(0, n as int) =~= self@);
        }
        out
    }
}

/// The dotted rendering of a sequence of segments.
pub open spec fn path_join(p: Seq<Seq<char>>) -> Seq<char>
    decreases p.len(),
{
    if p.len() == 0 {
        Seq::empty()
    } else if p.len() == 1 {
        p[0]
    } else {
        path_join(p.subrange(0, p.len() - 1)) + seq!['.'] + p[p.len() - 1]
    }
}

proof fn lemma_path_join_step(p: Seq<Seq<char>>, i: int)
    requires
        0 <= i < p.len(),
    ensures
        i == 0 ==> path_join(p.subrange(0, 1)) == p[0],
        i > 0 ==> path_join(p.subrange(0, i + 1)) == path_join(p.subrange(0, i)) + seq!['.']
            + p[i],
{
    let q = p.subrange(0, i + 1);
    if i == 0 {
        assert(q.len() == 1);
        assert(q[0] == p[0]);
    } else {
        assert(q.len() == i + 1);
        assert(q.subrange(0, i) =~= p.subrange(0, i));
        assert(q[i] == p[i]);
    }
}

impl Exp {
    /// The explicit binding name attached with the binding keyword, if any.
    pub fn bound_name(&self) -> (r: Option<&String>)
        ensures
            match r {
                Some(s) => self@.name == Some(s@),
                None => self@.name is None,
            },
    {
        match &self.1 {
            Some(s) => Some(&s.0),
            None => None,
        }
    }

    /// The call form of this expression, and `None` for a literal.
    pub fn call(&self) -> (r: Option<&Call>)
        ensures
            match r {
                Some(c) => self.0 == AnonExp::Call(*c) && self@.anon == (AnonV::Call {
                    path: c.path@,
                    args: exps_view(c.args@),
                }),
                None => self.0 is Literal && self@.anon is Literal,
            },
    {
        match &self.0 {
            AnonExp::Call(c) => Some(c),
            AnonExp::Literal(_) => None,
        }
    }

    /// The literal form of this expression, and `None` for a call.
    pub fn lit(&self) -> (r: Option<&Lit>)
        ensures
            match r {
                Some(l) => self.0 == AnonExp::Literal(*l) && self@.anon == AnonV::Literal(l@),
                None => self.0 is Call && self@.anon is Call,
            },
    {
        match &self.0 {
            AnonExp::Literal(l) => Some(l),
            AnonExp::Call(_) => None,
        }
    }

    /// The ordered argument list of a call, and the empty list for a literal.
    pub fn call_args(&self) -> (r: &[Exp])
        ensures
            match self.0 {
                AnonExp::Call(c) => r@ == c.args@,
                AnonExp::Literal(_) => r@.len() == 0,
            },
            match self@.anon {
                AnonV::Call { path, args } => exps_view(r@) == args,
                AnonV::Literal(_) => r@.len() == 0,
            },
    {
        match &self.0 {
            AnonExp::Call(c) => c.args.as_slice(),
            AnonExp::Literal(_) => &[],
        }
    }
}

// ------------------------------------------------------------------
// The parser: a recursive descent over the characters of the source
// text.  Each function takes the position of the first unconsumed
// character and returns the value it recognized together with the
// position after it.
// ------------------------------------------------------------------

/// True of the characters that may start a symbol.
fn is_sym_start(c: char) -> (r: bool)
    ensures
        r == (('a' <= c && c <= 'z') || ('A' <= c && c <= 'Z') || c == '_'),
{
    ('a' <= c && c <= 'z') || ('A' <= c && c <= 'Z') || c == '_'
}

/// True of the characters that may continue a symbol.
fn is_sym_char(c: char) -> (r: bool)
    ensures
        r == (('a' <= c && c <= 'z') || ('A' <= c && c <= 'Z') || ('0' <= c && c <= '9') || c
            == '_'),
{
    ('a' <= c && c <= 'z') || ('A' <= c && c <= 'Z') || ('0' <= c && c <= '9') || c == '_'
}

/// True of an ASCII decimal digit.
fn is_digit_char(c: char) -> (r: bool)
    ensures
        r == ('0' <= c && c <= '9'),
{
    '0' <= c && c <= '9'
}

/// True of the whitespace the grammar ignores.
fn is_ws_char(c: char) -> (r: bool)
    ensures
        r == (c == ' ' || c == '\t' || c == '\n' || c == '\r'),
{
    c == ' ' || c == '\t' || c == '\n' || c == '\r'
}

/// The position of the first non-whitespace character at or after `pos`.
fn skip_ws(s: &str, pos: usize) -> (r: usize)
    requires
        pos <= s@.len(),
    ensures
        pos <= r <= s@.len(),
{
    let n = s.unicode_len();
    let mut p = pos;
    while p < n
        invariant
            pos <= p <= n,
            n == s@.len(),
        decreases n - p,
    {
        let c = s.get_char(p);
        if is_ws_char(c) {
            p = p + 1;
        } else {
            break ;
        }
    }
    p
}

/// The position after the run of decimal digits starting at `pos`.
fn scan_digits(s: &str, pos: usize) -> (r: usize)
    requires
        pos <= s@.len(),
    ensures
        pos <= r <= s@.len(),
{
    let n = s.unicode_len();
    let mut p = pos;
    while p < n
        invariant
            pos <= p <= n,
            n == s@.len(),
        decreases n - p,
    {
        if is_digit_char(s.get_char(p)) {
            p = p + 1;
        } else {
            break ;
        }
    }
    p
}

/// Recognizes a symbol: a letter or underscore followed by letters,
/// digits and underscores.
pub fn parse_symbol(s: &str, pos: usize) -> (r: Option<(Sym, usize)>)
    requires
        pos <= s@.len(),
    ensures
        match r {
            Some((sym, p2)) => pos < p2 <= s@.len() && sym@ == s@.subrange(pos as int, p2 as int),
            None => true,
        },
{
    let n = s.unicode_len();
    if pos >= n {
        return None;
    }
    if !is_sym_start(s.get_char(pos)) {
        return None;
    }
    let mut end = pos + 1;
    while end < n
        invariant
            pos < end <= n,
            n == s@.len(),
        decreases n - end,
    {
        if is_sym_char(s.get_char(end)) {
            end = end + 1;
        } else {
            break ;
        }
    }
    let text = s.substring_char(pos, end);
    Some((Sym(text.to_owned()), end))
}

/// Recognizes a quoted string literal with at least one character of
/// content; the quotes are consumed, the content is kept.
pub fn parse_str_literal(s: &str, pos: usize) -> (r: Option<(Lit, usize)>)
    requires
        pos <= s@.len(),
    ensures
        match r {
            Some((lit, p2)) => pos + 2 < p2 <= s@.len() && lit@ == LitV::Str(
                s@.subrange(pos + 1, p2 - 1),
            ),
            None => true,
        },
{
    let n = s.unicode_len();
    if pos >= n || s.get_char(pos) != '"' {
        return None;
    }
    let mut end = pos + 1;
    while end < n
        invariant
            pos < end <= n,
            n == s@.len(),
        decreases n - end,
    {
        if s.get_char(end) != '"' {
            end = end + 1;
        } else {
            break ;
        }
    }
    if end >= n {
        return None;
    }
    if end == pos + 1 {
        return None;
    }
    let content = s.substring_char(pos + 1, end);
    Some((Lit::Str(content.to_owned()), end + 1))
}

/// Recognizes a run of decimal digits as an integer literal.
pub fn parse_int_literal(s: &str, pos: usize) -> (r: Option<(Lit, usize)>)
    requires
        pos <= s@.len(),
    ensures
        match r {
            Some((lit, p2)) => pos < p2 <= s@.len() && lit@ == LitV::Int(
                s@.subrange(pos as int, p2 as int),
            ),
            None => true,
        },
{
    let end = scan_digits(s, pos);
    if end == pos {
        return None;
    }
    let text = s.substring_char(pos, end);
    Some((Lit::Int(text.to_owned()), end))
}

/// Recognizes a decimal number: an optional sign, then either an integer
/// part with an optional fraction, or a fraction alone, then an optional
/// exponent.
pub fn parse_float_literal(s: &str, pos: usize) -> (r: Option<(Lit, usize)>)
    requires
        pos <= s@.len(),
    ensures
        match r {
            Some((lit, p2)) => pos < p2 <= s@.len() && lit@ == LitV::Float(
                s@.subrange(pos as int, p2 as int),
            ),
            None => true,
        },
{
    let n = s.unicode_len();
    let mut p = pos;
    if p < n && (s.get_char(p) == '+' || s.get_char(p) == '-') {
        p = p + 1;
    }
    let intstart = p;
    p = scan_digits(s, p);
    if p > intstart {
        // integer part present; optional fraction
        if p < n && s.get_char(p) == '.' {
            p = scan_digits(s, p + 1);
        }
    } else {
        // no integer part: the fraction is mandatory
        if p < n && s.get_char(p) == '.' {
            let fstart = p + 1;
            p = scan_digits(s, fstart);
            if p == fstart {
                return None;
            }
        } else {
            return None;
        }
    }
    // optional exponent; it must carry at least one digit to count
    if p < n && (s.get_char(p) == 'e' || s.get_char(p) == 'E') {
        let mut q = p + 1;
        if q < n && (s.get_char(q) == '+' || s.get_char(q) == '-') {
            q = q + 1;
        }
        let dstart = q;
        q = scan_digits(s, q);
        if q > dstart {
            p = q;
        }
    }
    let text = s.substring_char(pos, p);
    Some((Lit::Float(text.to_owned()), p))
}

/// Recognizes a literal: a quoted string, else a decimal number, else an
/// integer.
pub fn parse_literal(s: &str, pos: usize) -> (r: Option<(Lit, usize)>)
    requires
        pos <= s@.len(),
    ensures
        match r {
            Some((lit, p2)) => pos < p2 <= s@.len(),
            None => true,
        },
{
    match parse_str_literal(s, pos) {
        Some(r) => Some(r),
        None => match parse_float_literal(s, pos) {
            Some(r) => Some(r),
            None => parse_int_literal(s, pos),
        },
    }
}

/// Recognizes a dotted path: one symbol, then any number of further
/// symbols each preceded directly by a dot.
pub fn parse_path(s: &str, pos: usize) -> (r: Option<(Path, usize)>)
    requires
        pos <= s@.len(),
    ensures
        match r {
            Some((path, p2)) => pos < p2 <= s@.len() && path@.len() >= 1,
            None => true,
        },
{
    let n = s.unicode_len();
    match parse_symbol(s, pos) {
        None => None,
        Some((first, p1)) => {
            let mut segs: Vec<Sym> = Vec::new();
            segs.push(first);
            let mut p = p1;
            while p < n
                invariant
                    pos < p <= n,
                    n == s@.len(),
                    segs@.len() >= 1,
                decreases n - p,
            {
                if s.get_char(p) != '.' {
                    break ;
                }
                match parse_symbol(s, p + 1) {
                    Some((seg, p2)) => {
                        segs.push(seg);
                        p = p2;
                    },
                    None => {
                        break ;
                    },
                }
            }
            proof {
                assert(segs@.map_values(|sy: Sym| sy@).len() == segs@.len());
            }
            Some((Path(segs), p))
        },
    }
}

/// Recognizes the binding suffix: the binding keyword followed by the
/// bound symbol, with whitespace allowed between them.
pub fn parse_name_binding(s: &str, pos: usize) -> (r: Option<(Sym, usize)>)
    requires
        pos <= s@.len(),
    ensures
        match r {
            Some((_, p2)) => pos < p2 <= s@.len(),
            None => true,
        },
{
    let kw = String::from_str("as");
    match parse_symbol(s, pos) {
        None => None,
        Some((word, p1)) => {
            if !(word.0 == kw) {
                return None;
            }
            let p2 = skip_ws(s, p1);
            match parse_symbol(s, p2) {
                Some((name, p3)) => Some((name, p3)),
                None => None,
            }
        },
    }
}

/// Recognizes an expression without its binding: a dotted path with an
/// optional parenthesized argument list, or a literal.
pub fn parse_anon_expression(s: &str, pos: usize) -> (r: Option<(AnonExp, usize)>)
    requires
        pos <= s@.len(),
    ensures
        match r {
            Some((a, p2)) => pos < p2 <= s@.len() && anon_wf(a),
            None => true,
        },
    decreases s@.len() - pos, 1int,
{
    match parse_path(s, pos) {
        Some((path, p1)) => {
            let p2 = skip_ws(s, p1);
            let n = s.unicode_len();
            if p2 < n && s.get_char(p2) == '(' {
                match parse_par_list(s, p2) {
                    Some((args, p3)) => Some((AnonExp::Call(Call { path, args }), p3)),
                    None => Some((AnonExp::Call(Call { path, args: Vec::new() }), p1)),
                }
            } else {
                Some((AnonExp::Call(Call { path, args: Vec::new() }), p1))
            }
        },
        None => match parse_literal(s, pos) {
            Some((lit, p1)) => Some((AnonExp::Literal(lit), p1)),
            None => None,
        },
    }
}

/// Well-formedness of a parsed anonymous expression, as the resolver
/// requires it: every call path has at least one segment.
pub open spec fn anon_wf(a: AnonExp) -> bool {
    expv_wf(exp_view(Exp(a, None)))
}

/// Recognizes a parenthesized argument list.
pub fn parse_par_list(s: &str, pos: usize) -> (r: Option<(Vec<Exp>, usize)>)
    requires
        pos <= s@.len(),
    ensures
        match r {
            Some((args, p2)) => pos < p2 <= s@.len() && expsv_wf(exps_view(args@)),
            None => true,
        },
    decreases s@.len() - pos, 4int,
{
    let n = s.unicode_len();
    if pos >= n || s.get_char(pos) != '(' {
        return None;
    }
    let (args, p1) = parse_list(s, pos + 1);
    if p1 < n && s.get_char(p1) == ')' {
        Some((args, p1 + 1))
    } else {
        None
    }
}

/// Recognizes one expression node: an anonymous expression with an
/// optional binding suffix.
pub fn parse_named_expression(s: &str, pos: usize) -> (r: Option<(Exp, usize)>)
    requires
        pos <= s@.len(),
    ensures
        match r {
            Some((e, p2)) => pos < p2 <= s@.len() && expv_wf(exp_view(e)),
            None => true,
        },
    decreases s@.len() - pos, 2int,
{
    match parse_anon_expression(s, pos) {
        None => None,
        Some((anon, p1)) => {
            let p2 = skip_ws(s, p1);
            match parse_name_binding(s, p2) {
                Some((name, p3)) => Some((Exp(anon, Some(name)), p3)),
                None => Some((Exp(anon, None), p1)),
            }
        },
    }
}

/// Recognizes as many expression nodes as the text offers, separated by
/// whitespace, and returns them with the position of the first character
/// it could not consume.
pub fn parse_list(s: &str, pos: usize) -> (r: (Vec<Exp>, usize))
    requires
        pos <= s@.len(),
    ensures
        pos <= r.1 <= s@.len(),
        expsv_wf(exps_view(r.0@)),
    decreases s@.len() - pos, 3int,
{
    let n = s.unicode_len();
    let mut out: Vec<Exp> = Vec::new();
    let mut cur = skip_ws(s, pos);
    while cur < n
        invariant
            pos <= cur <= n,
            n == s@.len(),
            forall|j: int| 0 <= j < out@.len() ==> expv_wf(exp_view(#[trigger] out@[j])),
        decreases n - cur,
    {
        match parse_named_expression(s, cur) {
            Some((e, p2)) => {
                out.push(e);
                cur = skip_ws(s, p2);
            },
            None => {
                break ;
            },
        }
    }
    proof {
        lemma_exps_view(out@);
        assert forall|j: int| 0 <= j < exps_view(out@).len() implies expv_wf(
            #[trigger] exps_view(out@)[j],
        ) by {
            assert(exps_view(out@)[j] == exp_view(out@[j]));
        }
    }
    (out, cur)
}

/// Parses a whole source text as a list of expression nodes; anything the
/// grammar cannot consume is a syntax error.
pub fn parse_file(string: &str) -> (r: Result<Vec<Exp>, SyntaxError>)
    ensures
        match r {
            Ok(exps) => expsv_wf(exps_view(exps@)),
            Err(_) => true,
        },
{
    let n = string.unicode_len();
    let (exps, p) = parse_list(string, 0);
    if p == n {
        Ok(exps)
    } else {
        Err(SyntaxError)
    }
}

} // verus!
