//! The LP file format: expressions, constraints and whole problems as text.

use vstd::prelude::*;

use crate::dsl::simplify::{opt_term, simp, simplified, simplify_budget, simplify_halts, try_simplify};
use crate::dsl::variables::{Constraint, LpConstraint, LpExpression, Term};
use crate::num::{dec_text, make, nat_digits, push_nat_digits, Decimal};
use crate::text::{matches_at, same_chars, string_from_chars};
use crate::dsl::problem::{constraint_models, problem_variables, LpObjective, LpProblem, Problem};

verus! {

/// Text of an expression tree: sums and differences with their signs,
/// products as their factors separated by a space, a factor `1` dropped and
/// a factor `-1` written as a minus sign.
pub open spec fn show(t: Term) -> Seq<char>
    decreases t,
{
    match t {
        Term::Lit(n) => dec_text(n),
        Term::Add(a, b) => show(*a) + seq![' ', '+', ' '] + show(*b),
        Term::Sub(a, b) => show(*a) + seq![' ', '-', ' '] + show(*b),
        Term::Mul(a, b) => if *a == Term::Lit(make(false, 1, 0).unwrap()) {
            seq![' '] + show(*b)
        } else if *a == Term::Lit(make(true, 1, 0).unwrap()) {
            seq!['-'] + show(*b)
        } else {
            show(*a) + seq![' '] + show(*b)
        },
        Term::Int(v) => v.name,
        Term::Bin(n) => n,
        Term::Cont(v) => v.name,
        Term::Empty => seq!['E', 'm', 'p', 't', 'y', 'E', 'x', 'p', 'r', '!', '!'],
    }
}

/// Replaces every occurrence of `p` in `s` by `r`, from left to right
/// without overlaps.
pub open spec fn replace_all(s: Seq<char>, p: Seq<char>, r: Seq<char>) -> Seq<char>
    decreases s.len(),
{
    if p.len() == 0 || s.len() < p.len() {
        s
    } else if s.take(p.len() as int) == p {
        r + replace_all(s.skip(p.len() as int), p, r)
    } else {
        seq![s[0]] + replace_all(s.skip(1), p, r)
    }
}

/// One round of sign fixes: `+ +` to `+ `, `- +` to `- `, `+ -` to `- `,
/// `- -` to `+ `, and double spaces to single ones.
pub open spec fn sign_round(s: Seq<char>) -> Seq<char> {
    let s1 = replace_all(s, seq!['+', ' ', '+'], seq!['+', ' ']);
    let s2 = replace_all(s1, seq!['-', ' ', '+'], seq!['-', ' ']);
    let s3 = replace_all(s2, seq!['+', ' ', '-'], seq!['-', ' ']);
    let s4 = replace_all(s3, seq!['-', ' ', '-'], seq!['+', ' ']);
    replace_all(s4, seq![' ', ' '], seq![' '])
}

/// A replacement by a shorter text either changes nothing or shortens.
pub proof fn lemma_replace_all_shrinks(s: Seq<char>, p: Seq<char>, r: Seq<char>)
    requires
        r.len() < p.len(),
    ensures
        replace_all(s, p, r).len() <= s.len(),
        replace_all(s, p, r).len() == s.len() ==> replace_all(s, p, r) == s,
    decreases s.len(),
{
    if p.len() == 0 || s.len() < p.len() {
    } else if s.take(p.len() as int) == p {
        lemma_replace_all_shrinks(s.skip(p.len() as int), p, r);
    } else {
        lemma_replace_all_shrinks(s.skip(1), p, r);
        assert(seq![s[0]] + s.skip(1) =~= s);
    }
}

pub proof fn lemma_sign_round_shrinks(s: Seq<char>)
    ensures
        sign_round(s).len() <= s.len(),
        sign_round(s).len() == s.len() ==> sign_round(s) == s,
{
    let s1 = replace_all(s, seq!['+', ' ', '+'], seq!['+', ' ']);
    let s2 = replace_all(s1, seq!['-', ' ', '+'], seq!['-', ' ']);
    let s3 = replace_all(s2, seq!['+', ' ', '-'], seq!['-', ' ']);
    let s4 = replace_all(s3, seq!['-', ' ', '-'], seq!['+', ' ']);
    lemma_replace_all_shrinks(s, seq!['+', ' ', '+'], seq!['+', ' ']);
    lemma_replace_all_shrinks(s1, seq!['-', ' ', '+'], seq!['-', ' ']);
    lemma_replace_all_shrinks(s2, seq!['+', ' ', '-'], seq!['-', ' ']);
    lemma_replace_all_shrinks(s3, seq!['-', ' ', '-'], seq!['+', ' ']);
    lemma_replace_all_shrinks(s4, seq![' ', ' '], seq![' ']);
}

/// Sign fixes repeated until nothing changes.
pub open spec fn formalize_signs(s: Seq<char>) -> Seq<char>
    decreases s.len(),
{
    if sign_round(s) == s {
        s
    } else {
        proof {
            lemma_sign_round_shrinks(s);
        }
        formalize_signs(sign_round(s))
    }
}

/// `p` occurs in `s` at position `i`.
pub open spec fn occurs_at(s: Seq<char>, p: Seq<char>, i: int) -> bool {
    0 <= i && i + p.len() <= s.len() && s.subrange(i, i + p.len()) == p
}

/// A replacement by a shorter text shortens every text in which the
/// replaced text occurs.
pub proof fn lemma_replace_all_strict(s: Seq<char>, p: Seq<char>, r: Seq<char>, i: int)
    requires
        r.len() < p.len(),
        occurs_at(s, p, i),
    ensures
        replace_all(s, p, r).len() < s.len(),
    decreases s.len(),
{
    if s.take(p.len() as int) == p {
        lemma_replace_all_shrinks(s.skip(p.len() as int), p, r);
    } else {
        assert(i != 0) by {
            if i == 0 {
                assert(s.take(p.len() as int) =~= s.subrange(0, p.len() as int));
            }
        }
        assert(occurs_at(s.skip(1), p, i - 1)) by {
            assert(s.skip(1).subrange(i - 1, i - 1 + p.len()) =~= s.subrange(i, i + p.len()));
        }
        lemma_replace_all_strict(s.skip(1), p, r, i - 1);
    }
}

/// A text that one round of sign fixes leaves as it is holds none of the
/// texts that the round replaces.
proof fn lemma_sign_round_fixed(t: Seq<char>, i: int)
    requires
        sign_round(t) == t,
    ensures
        !occurs_at(t, seq!['+', ' ', '+'], i),
        !occurs_at(t, seq!['-', ' ', '+'], i),
        !occurs_at(t, seq!['+', ' ', '-'], i),
        !occurs_at(t, seq!['-', ' ', '-'], i),
        !occurs_at(t, seq![' ', ' '], i),
{
    let s1 = replace_all(t, seq!['+', ' ', '+'], seq!['+', ' ']);
    let s2 = replace_all(s1, seq!['-', ' ', '+'], seq!['-', ' ']);
    let s3 = replace_all(s2, seq!['+', ' ', '-'], seq!['-', ' ']);
    let s4 = replace_all(s3, seq!['-', ' ', '-'], seq!['+', ' ']);
    lemma_replace_all_shrinks(t, seq!['+', ' ', '+'], seq!['+', ' ']);
    lemma_replace_all_shrinks(s1, seq!['-', ' ', '+'], seq!['-', ' ']);
    lemma_replace_all_shrinks(s2, seq!['+', ' ', '-'], seq!['-', ' ']);
    lemma_replace_all_shrinks(s3, seq!['-', ' ', '-'], seq!['+', ' ']);
    lemma_replace_all_shrinks(s4, seq![' ', ' '], seq![' ']);
    assert(s1 == t && s2 == t && s3 == t && s4 == t);
    if occurs_at(t, seq!['+', ' ', '+'], i) {
        lemma_replace_all_strict(t, seq!['+', ' ', '+'], seq!['+', ' '], i);
    }
    if occurs_at(t, seq!['-', ' ', '+'], i) {
        lemma_replace_all_strict(t, seq!['-', ' ', '+'], seq!['-', ' '], i);
    }
    if occurs_at(t, seq!['+', ' ', '-'], i) {
        lemma_replace_all_strict(t, seq!['+', ' ', '-'], seq!['-', ' '], i);
    }
    if occurs_at(t, seq!['-', ' ', '-'], i) {
        lemma_replace_all_strict(t, seq!['-', ' ', '-'], seq!['+', ' '], i);
    }
    if occurs_at(t, seq![' ', ' '], i) {
        lemma_replace_all_strict(t, seq![' ', ' '], seq![' '], i);
    }
}

/// Signs are merged in the text the writer gives an expression (`expr_text`
/// is `formalize_signs` of the expression shown): it holds none of `+ +`, `- +`, `+ -`, `- -` or two
/// spaces in a row, so that `x + -y` is written `x - y` and `x - -y` is
/// written `x + y`.
pub proof fn law_signs_merged(s: Seq<char>, i: int)
    ensures
        !occurs_at(formalize_signs(s), seq!['+', ' ', '+'], i),
        !occurs_at(formalize_signs(s), seq!['-', ' ', '+'], i),
        !occurs_at(formalize_signs(s), seq!['+', ' ', '-'], i),
        !occurs_at(formalize_signs(s), seq!['-', ' ', '-'], i),
        !occurs_at(formalize_signs(s), seq![' ', ' '], i),
    decreases s.len(),
{
    if sign_round(s) == s {
        lemma_sign_round_fixed(s, i);
    } else {
        lemma_sign_round_shrinks(s);
        law_signs_merged(sign_round(s), i);
    }
}

/// Text of an expression tree with every sum, difference and product in
/// parentheses and products written `a * b`; two trees are written the same
/// way exactly when the writer takes them for the same expression.
pub open spec fn show_paren(t: Term) -> Seq<char>
    decreases t,
{
    match t {
        Term::Lit(n) => dec_text(n),
        Term::Add(a, b) => seq!['('] + show_paren(*a) + seq![' ', '+', ' '] + show_paren(*b) + seq![')'],
        Term::Sub(a, b) => seq!['('] + show_paren(*a) + seq![' ', '-', ' '] + show_paren(*b) + seq![')'],
        Term::Mul(a, b) => if *a == Term::Lit(make(false, 1, 0).unwrap()) {
            seq!['(', ' '] + show_paren(*b) + seq![')']
        } else if *a == Term::Lit(make(true, 1, 0).unwrap()) {
            seq!['(', '-'] + show_paren(*b) + seq![')']
        } else {
            seq!['('] + show_paren(*a) + seq![' ', '*', ' '] + show_paren(*b) + seq![')']
        },
        Term::Int(v) => v.name,
        Term::Bin(n) => n,
        Term::Cont(v) => v.name,
        Term::Empty => seq!['E', 'm', 'p', 't', 'y', 'E', 'x', 'p', 'r', '!', '!'],
    }
}

/// The expression the writer shows: simplified again while simplifying
/// changes how it is written (see `show_paren`); `None` where a
/// simplification does not stop or more than `fuel` rounds are needed.
pub open spec fn settled(t: Term, fuel: nat) -> Option<Term>
    decreases fuel,
{
    if fuel == 0 || !simplify_halts(t) {
        None
    } else if show_paren(t) == show_paren(simplified(t)) {
        Some(t)
    } else {
        settled(simplified(t), (fuel - 1) as nat)
    }
}

/// The expression can be written: its simplification settles.
pub open spec fn expr_writable(t: Term) -> bool {
    settled(t, simplify_budget()) is Some
}

/// LP text of an expression: simplified until it settles, shown, signs
/// fixed.
pub open spec fn expr_text(t: Term) -> Seq<char> {
    formalize_signs(show(settled(t, simplify_budget())->0))
}

/// LP text of a constraint.
pub open spec fn constraint_text(c: (Term, Constraint, Term)) -> Seq<char> {
    expr_text(c.0) + match c.1 {
        Constraint::GreaterOrEqual => seq![' ', '>', '=', ' '],
        Constraint::LessOrEqual => seq![' ', '<', '=', ' '],
        Constraint::Equal => seq![' ', '=', ' '],
    } + expr_text(c.2)
}

/// Both sides of a constraint can be written.
pub open spec fn constraint_writable(c: (Term, Constraint, Term)) -> bool {
    expr_writable(c.0) && expr_writable(c.2)
}

/// Appends the text of an expression tree; see `show`.
fn push_show(e: &LpExpression, out: &mut Vec<char>)
    ensures
        final(out)@ == old(out)@ + show(e@),
    decreases e,
{
    let ghost start = out@;
    match e {
        LpExpression::LitVal(n) => {
            n.write_text(out);
        },
        LpExpression::AddExpr(a, b) => {
            push_show(&**a, out);
            out.push(' ');
            out.push('+');
            out.push(' ');
            push_show(&**b, out);
            assert(out@ =~= start + (show(a@) + seq![' ', '+', ' '] + show(b@)));
        },
        LpExpression::SubExpr(a, b) => {
            push_show(&**a, out);
            out.push(' ');
            out.push('-');
            out.push(' ');
            push_show(&**b, out);
            assert(out@ =~= start + (show(a@) + seq![' ', '-', ' '] + show(b@)));
        },
        LpExpression::MulExpr(a, b) => {
            let one = Decimal::from_i32(1);
            let minus_one = Decimal::from_i32(-1);
            let (is_one, is_minus_one) = match &**a {
                LpExpression::LitVal(v) => (*v == one, *v == minus_one),
                _ => (false, false),
            };
            if is_one {
                out.push(' ');
                push_show(&**b, out);
                assert(out@ =~= start + (seq![' '] + show(b@)));
            } else if is_minus_one {
                out.push('-');
                push_show(&**b, out);
                assert(out@ =~= start + (seq!['-'] + show(b@)));
            } else {
                push_show(&**a, out);
                out.push(' ');
                push_show(&**b, out);
                assert(out@ =~= start + (show(a@) + seq![' '] + show(b@)));
            }
        },
        LpExpression::ConsInt(v) => {
            let mut cs = crate::text::chars_of_str(v.name.as_str());
            out.append(&mut cs);
        },
        LpExpression::ConsBin(v) => {
            let mut cs = crate::text::chars_of_str(v.name.as_str());
            out.append(&mut cs);
        },
        LpExpression::ConsCont(v) => {
            let mut cs = crate::text::chars_of_str(v.name.as_str());
            out.append(&mut cs);
        },
        LpExpression::EmptyExpr => {
            out.push('E');
            out.push('m');
            out.push('p');
            out.push('t');
            out.push('y');
            out.push('E');
            out.push('x');
            out.push('p');
            out.push('r');
            out.push('!');
            out.push('!');
            assert(out@ =~= start + show(e@));
        },
    }
}

/// Appends the parenthesized text of an expression tree; see
/// `show_paren`.
fn push_show_paren(e: &LpExpression, out: &mut Vec<char>)
    ensures
        final(out)@ == old(out)@ + show_paren(e@),
    decreases e,
{
    let ghost start = out@;
    match e {
        LpExpression::LitVal(n) => {
            n.write_text(out);
        },
        LpExpression::AddExpr(a, b) => {
            out.push('(');
            push_show_paren(&**a, out);
            out.push(' ');
            out.push('+');
            out.push(' ');
            push_show_paren(&**b, out);
            out.push(')');
            assert(out@ =~= start + (seq!['('] + show_paren(a@) + seq![' ', '+', ' '] + show_paren(b@) + seq![')']));
        },
        LpExpression::SubExpr(a, b) => {
            out.push('(');
            push_show_paren(&**a, out);
            out.push(' ');
            out.push('-');
            out.push(' ');
            push_show_paren(&**b, out);
            out.push(')');
            assert(out@ =~= start + (seq!['('] + show_paren(a@) + seq![' ', '-', ' '] + show_paren(b@) + seq![')']));
        },
        LpExpression::MulExpr(a, b) => {
            let one = Decimal::from_i32(1);
            let minus_one = Decimal::from_i32(-1);
            let (is_one, is_minus_one) = match &**a {
                LpExpression::LitVal(v) => (*v == one, *v == minus_one),
                _ => (false, false),
            };
            if is_one {
                out.push('(');
                out.push(' ');
                push_show_paren(&**b, out);
                out.push(')');
                assert(out@ =~= start + (seq!['(', ' '] + show_paren(b@) + seq![')']));
            } else if is_minus_one {
                out.push('(');
                out.push('-');
                push_show_paren(&**b, out);
                out.push(')');
                assert(out@ =~= start + (seq!['(', '-'] + show_paren(b@) + seq![')']));
            } else {
                out.push('(');
                push_show_paren(&**a, out);
                out.push(' ');
                out.push('*');
                out.push(' ');
                push_show_paren(&**b, out);
                out.push(')');
                assert(out@ =~= start + (seq!['('] + show_paren(a@) + seq![' ', '*', ' '] + show_paren(b@) + seq![')']));
            }
        },
        LpExpression::ConsInt(v) => {
            let mut cs = crate::text::chars_of_str(v.name.as_str());
            out.append(&mut cs);
        },
        LpExpression::ConsBin(v) => {
            let mut cs = crate::text::chars_of_str(v.name.as_str());
            out.append(&mut cs);
        },
        LpExpression::ConsCont(v) => {
            let mut cs = crate::text::chars_of_str(v.name.as_str());
            out.append(&mut cs);
        },
        LpExpression::EmptyExpr => {
            out.push('E');
            out.push('m');
            out.push('p');
            out.push('t');
            out.push('y');
            out.push('E');
            out.push('x');
            out.push('p');
            out.push('r');
            out.push('!');
            out.push('!');
            assert(out@ =~= start + show_paren(e@));
        },
    }
}

/// The expression the writer shows; see `settled`.
fn settle(e: &LpExpression) -> (r: Option<LpExpression>)
    ensures
        opt_term(r) == settled(e@, simplify_budget()),
{
    let mut cur = e.copy();
    let mut fuel: u64 = u64::MAX;
    loop
        invariant
            settled(e@, simplify_budget()) == settled(cur@, fuel as nat),
        decreases fuel,
    {
        if fuel == 0 {
            return None;
        }
        match try_simplify(&cur) {
            None => {
                return None;
            },
            Some(n) => {
                let mut a: Vec<char> = Vec::new();
                push_show_paren(&cur, &mut a);
                let mut b: Vec<char> = Vec::new();
                push_show_paren(&n, &mut b);
                if same_chars(&a, &b) {
                    return Some(cur);
                }
                cur = n;
                fuel = fuel - 1;
            },
        }
    }
}

} // verus!

verus! {

/// Replaces every occurrence of `p` in `s` by `r`; see `replace_all`.
fn replace_all_exec(s: &Vec<char>, p: &Vec<char>, r: &Vec<char>) -> (o: Vec<char>)
    requires
        p.len() > 0,
    ensures
        o@ == replace_all(s@, p@, r@),
{
    let mut out: Vec<char> = Vec::new();
    let mut i: usize = 0;
    assert(s@.skip(0) =~= s@);
    while i < s.len()
        invariant
            i <= s.len(),
            p.len() > 0,
            out@ + replace_all(s@.skip(i as int), p@, r@) == replace_all(s@, p@, r@),
        decreases s.len() - i,
    {
        let ghost rest = s@.skip(i as int);
        if p.len() <= s.len() - i && matches_at(s, i, p) {
            proof {
                assert(rest.take(p.len() as int) =~= s@.subrange(i as int, i + p.len()));
                assert(rest.skip(p.len() as int) =~= s@.skip(i + p.len()));
            }
            crate::text::push_chars(&mut out, r);
            i = i + p.len();
        } else {
            proof {
                if p.len() <= s.len() - i {
                    assert(rest.take(p.len() as int) =~= s@.subrange(i as int, i + p.len()));
                }
                assert(rest.skip(1) =~= s@.skip(i + 1));
                assert(out@ + seq![s@[i as int]] + replace_all(s@.skip(i + 1), p@, r@) =~= out@ + (
                seq![rest[0]] + replace_all(rest.skip(1), p@, r@)));
            }
            out.push(s[i]);
            i = i + 1;
        }
    }
    proof {
        assert(s@.skip(i as int) =~= Seq::<char>::empty());
        assert(out@ + Seq::<char>::empty() =~= out@);
    }
    out
}

/// One round of sign fixes; see `sign_round`.
fn sign_round_exec(s: &Vec<char>) -> (o: Vec<char>)
    ensures
        o@ == sign_round(s@),
{
    let pp = vec!['+', ' ', '+'];
    let mp = vec!['-', ' ', '+'];
    let pm = vec!['+', ' ', '-'];
    let mm = vec!['-', ' ', '-'];
    let p_ = vec!['+', ' '];
    let m_ = vec!['-', ' '];
    let ss = vec![' ', ' '];
    let s_ = vec![' '];
    assert(pp@ =~= seq!['+', ' ', '+']);
    assert(mp@ =~= seq!['-', ' ', '+']);
    assert(pm@ =~= seq!['+', ' ', '-']);
    assert(mm@ =~= seq!['-', ' ', '-']);
    assert(p_@ =~= seq!['+', ' ']);
    assert(m_@ =~= seq!['-', ' ']);
    assert(ss@ =~= seq![' ', ' ']);
    assert(s_@ =~= seq![' ']);
    let s1 = replace_all_exec(s, &pp, &p_);
    let s2 = replace_all_exec(&s1, &mp, &m_);
    let s3 = replace_all_exec(&s2, &pm, &m_);
    let s4 = replace_all_exec(&s3, &mm, &p_);
    replace_all_exec(&s4, &ss, &s_)
}

/// Sign fixes until nothing changes; see `formalize_signs`.
fn formalize_signs_exec(s: Vec<char>) -> (o: Vec<char>)
    ensures
        o@ == formalize_signs(s@),
{
    let mut cur = s;
    loop
        invariant
            formalize_signs(cur@) == formalize_signs(s@),
        decreases cur.len(),
    {
        let next = sign_round_exec(&cur);
        if same_chars(&next, &cur) {
            return cur;
        }
        proof {
            lemma_sign_round_shrinks(cur@);
        }
        cur = next;
    }
}

/// Appends the LP text of an expression, or returns `false` where its
/// simplification does not stop within the budget.
fn push_expr_text(e: &LpExpression, out: &mut Vec<char>) -> (ok: bool)
    ensures
        ok == expr_writable(e@),
        ok ==> final(out)@ == old(out)@ + expr_text(e@),
        !ok ==> final(out)@ == old(out)@,
{
    match settle(e) {
        None => false,
        Some(simple) => {
            let mut shown: Vec<char> = Vec::new();
            push_show(&simple, &mut shown);
            let mut fixed = formalize_signs_exec(shown);
            out.append(&mut fixed);
            true
        },
    }
}

/// Appends the LP text of a constraint, or returns `false` where one side
/// cannot be written.
fn push_constraint_text(c: &LpConstraint, out: &mut Vec<char>) -> (ok: bool)
    ensures
        ok == constraint_writable(c@),
        ok ==> final(out)@ == old(out)@ + constraint_text(c@),
{
    let ghost start = out@;
    if !push_expr_text(&c.0, out) {
        return false;
    }
    match c.1 {
        Constraint::GreaterOrEqual => {
            out.push(' ');
            out.push('>');
            out.push('=');
            out.push(' ');
        },
        Constraint::LessOrEqual => {
            out.push(' ');
            out.push('<');
            out.push('=');
            out.push(' ');
        },
        Constraint::Equal => {
            out.push(' ');
            out.push('=');
            out.push(' ');
        },
    }
    let ok = push_expr_text(&c.2, out);
    proof {
        if ok {
            assert(out@ =~= start + constraint_text(c@));
        }
    }
    ok
}

} // verus!

verus! {

/// Objective block: the sense and `obj: ` followed by the objective's text;
/// empty without an objective.
pub open spec fn objective_block(sense: LpObjective, obj: Option<Term>) -> Seq<char> {
    match obj {
        Some(e) => (if sense == LpObjective::Maximize {
            seq!['M', 'a', 'x', 'i', 'm', 'i', 'z', 'e', '\n', ' ', ' ']
        } else {
            seq!['M', 'i', 'n', 'i', 'm', 'i', 'z', 'e', '\n', ' ', ' ']
        }) + seq!['o', 'b', 'j', ':', ' '] + expr_text(e),
        None => seq![],
    }
}

/// The objective is written after `Maximize` when the objective is
/// maximized and after `Minimize` when it is minimized.
pub proof fn law_objective_sense(sense: LpObjective, e: Term)
    ensures
        objective_block(sense, Some(e)).take(8) == (if sense is Maximize {
            seq!['M', 'a', 'x', 'i', 'm', 'i', 'z', 'e']
        } else {
            seq!['M', 'i', 'n', 'i', 'm', 'i', 'z', 'e']
        }),
{
    assert(objective_block(sense, Some(e)).take(8) =~= (if sense is Maximize {
        seq!['M', 'a', 'x', 'i', 'm', 'i', 'z', 'e']
    } else {
        seq!['M', 'i', 'n', 'i', 'm', 'i', 'z', 'e']
    }));
}

/// A constraint is written as its left-hand side, its comparison (`>=`,
/// `<=` or `=`, between spaces) and its right-hand side.
pub proof fn law_constraint_comparison(c: (Term, Constraint, Term))
    ensures
        constraint_text(c) == expr_text(c.0) + (match c.1 {
            Constraint::GreaterOrEqual => seq![' ', '>', '=', ' '],
            Constraint::LessOrEqual => seq![' ', '<', '=', ' '],
            Constraint::Equal => seq![' ', '=', ' '],
        }) + expr_text(c.2),
{
}

/// One line `  c<i>: <constraint>` per constraint, numbered from 1.
pub open spec fn constraints_block(cs: Seq<(Term, Constraint, Term)>) -> Seq<char>
    decreases cs.len(),
{
    if cs.len() == 0 {
        seq![]
    } else {
        constraints_block(cs.drop_last()) + constraint_line(cs.len(), cs.last())
    }
}

/// The constraints block is the lines `  c<k>: <constraint>` of the
/// constraints in order, numbered from 1; it is empty exactly when there is
/// no constraint, so that the problem text has a `Subject To` section
/// exactly when the problem has a constraint.
pub proof fn law_constraints_block(cs: Seq<(Term, Constraint, Term)>, k: int)
    ensures
        (constraints_block(cs).len() == 0) <==> (cs.len() == 0),
        section(subject_to_header(), constraints_block(cs), false).len() > 0 <==> cs.len() > 0,
        0 < k <= cs.len() ==> constraints_block(cs) == constraints_block(cs.take(k - 1)) + constraint_line(
            k as nat,
            cs[k - 1],
        ) + constraints_block_from(cs, k),
    decreases cs.len(),
{
    if cs.len() > 0 {
        law_constraints_block(cs.drop_last(), k);
        assert(constraint_line(cs.len(), cs.last()).len() > 0);
        if 0 < k <= cs.len() {
            if k == cs.len() {
                assert(cs.take(k - 1) =~= cs.drop_last());
                assert(constraints_block_from(cs, k) == Seq::<char>::empty());
                assert(constraints_block(cs) =~= constraints_block(cs.take(k - 1)) + constraint_line(
                    k as nat,
                    cs[k - 1],
                ) + constraints_block_from(cs, k));
            } else {
                assert(cs.drop_last().take(k - 1) =~= cs.take(k - 1));
                assert(cs.drop_last()[k - 1] == cs[k - 1]);
                lemma_block_from_step(cs, k);
            }
        }
    }
}

/// The lines of the constraints after the `k`-th, numbered from `k + 1`.
pub open spec fn constraints_block_from(cs: Seq<(Term, Constraint, Term)>, k: int) -> Seq<char>
    decreases cs.len() - k,
{
    if k < 0 || k >= cs.len() {
        seq![]
    } else {
        constraint_line((k + 1) as nat, cs[k]) + constraints_block_from(cs, k + 1)
    }
}

proof fn lemma_block_from_step(cs: Seq<(Term, Constraint, Term)>, k: int)
    requires
        0 < k < cs.len(),
    ensures
        constraints_block_from(cs, k) == constraints_block_from(cs.drop_last(), k) + constraint_line(
            cs.len(),
            cs.last(),
        ),
    decreases cs.len() - k,
{
    if k + 1 < cs.len() {
        lemma_block_from_step(cs, k + 1);
        assert(cs.drop_last()[k] == cs[k]);
        assert(constraints_block_from(cs, k) =~= constraints_block_from(cs.drop_last(), k) + constraint_line(
            cs.len(),
            cs.last(),
        ));
    } else {
        assert(constraints_block_from(cs.drop_last(), k) == Seq::<char>::empty());
        assert(constraints_block_from(cs, k + 1) == Seq::<char>::empty());
        assert(constraints_block_from(cs, k) =~= constraints_block_from(cs.drop_last(), k) + constraint_line(
            cs.len(),
            cs.last(),
        ));
    }
}

/// The line `  c<k>: <constraint>`.
pub open spec fn constraint_line(k: nat, c: (Term, Constraint, Term)) -> Seq<char> {
    seq![' ', ' ', 'c'] + nat_digits(k) + seq![':', ' '] + constraint_text(c) + seq!['\n']
}

/// Bounds line of a bounded variable: `  l <= x <= u`, `  l <= x`,
/// `  x <= u`, or `  x free` for an unbounded continuous variable.
pub open spec fn bound_line(t: Term) -> Seq<char> {
    match t {
        Term::Int(v) => var_bounds(v.name, v.lower, v.upper, false),
        Term::Cont(v) => var_bounds(v.name, v.lower, v.upper, true),
        _ => seq![],
    }
}

pub open spec fn var_bounds(name: Seq<char>, lower: Option<Decimal>, upper: Option<Decimal>, continuous: bool) -> Seq<char> {
    let lt: Seq<char> = seq![' ', '<', '=', ' '];
    let nl: Seq<char> = seq!['\n'];
    let ind: Seq<char> = seq![' ', ' '];
    match (lower, upper) {
        (Some(l), Some(u)) => ind + dec_text(l) + lt + name + lt + dec_text(u) + nl,
        (Some(l), None) => ind + dec_text(l) + lt + name + nl,
        (None, Some(u)) => ind + name + lt + dec_text(u) + nl,
        (None, None) => if continuous {
            ind + name + seq![' ', 'f', 'r', 'e', 'e'] + nl
        } else {
            seq![]
        },
    }
}

/// The bounds lines of the variables, in order; the writer gives it the
/// variables of the constraints, one per name (see `problem_variables` and
/// `law_variables_one_per_name`), so that each variable has one line, empty
/// for a binary and for an integer without bounds.
pub open spec fn bounds_block(vars: Seq<Term>) -> Seq<char>
    decreases vars.len(),
{
    if vars.len() == 0 {
        seq![]
    } else {
        bounds_block(vars.drop_last()) + bound_line(vars.last())
    }
}

/// Names of the integer variables, each followed by a space.
pub open spec fn integers_block(vars: Seq<Term>) -> Seq<char>
    decreases vars.len(),
{
    if vars.len() == 0 {
        seq![]
    } else {
        integers_block(vars.drop_last()) + match vars.last() {
            Term::Int(v) => v.name + seq![' '],
            _ => seq![],
        }
    }
}

/// Names of the binary variables, each followed by a space.
pub open spec fn binaries_block(vars: Seq<Term>) -> Seq<char>
    decreases vars.len(),
{
    if vars.len() == 0 {
        seq![]
    } else {
        binaries_block(vars.drop_last()) + match vars.last() {
            Term::Bin(n) => n + seq![' '],
            _ => seq![],
        }
    }
}

/// A text holds the text `p` where `s` holds it, whatever comes before or
/// after.
proof fn lemma_occurs_in_concat(a: Seq<char>, s: Seq<char>, b: Seq<char>, p: Seq<char>, k: int)
    requires
        occurs_at(s, p, k),
    ensures
        occurs_at(a + s + b, p, a.len() + k),
{
    assert((a + s + b).subrange(a.len() + k, a.len() + k + p.len()) =~= s.subrange(k, k + p.len()));
}

/// Every binary variable is listed in the binaries block: its name followed
/// by a space.
pub proof fn law_binaries_listed(vars: Seq<Term>, j: int)
    requires
        0 <= j < vars.len(),
        vars[j] is Bin,
    ensures
        exists|k: int| occurs_at(binaries_block(vars), vars[j]->Bin_0 + seq![' '], k),
    decreases vars.len(),
{
    let p = vars[j]->Bin_0 + seq![' '];
    let pre = binaries_block(vars.drop_last());
    if j == vars.len() - 1 {
        assert(binaries_block(vars) == pre + p);
        assert(p.subrange(0, p.len() as int) =~= p);
        lemma_occurs_in_concat(pre, p, seq![], p, 0);
        assert(pre + p + seq![] =~= pre + p);
        assert(occurs_at(binaries_block(vars), p, pre.len() as int));
    } else {
        assert(vars.drop_last()[j] == vars[j]);
        law_binaries_listed(vars.drop_last(), j);
        let k = choose|k: int| occurs_at(pre, p, k);
        let post = match vars.last() {
            Term::Bin(n) => n + seq![' '],
            _ => seq![],
        };
        lemma_occurs_in_concat(seq![], pre, post, p, k);
        assert(seq![] + pre + post =~= binaries_block(vars));
    }
}

/// Every integer variable is listed in the integers block (the Generals
/// section): its name followed by a space.
pub proof fn law_integers_listed(vars: Seq<Term>, j: int)
    requires
        0 <= j < vars.len(),
        vars[j] is Int,
    ensures
        exists|k: int| occurs_at(integers_block(vars), vars[j]->Int_0.name + seq![' '], k),
    decreases vars.len(),
{
    let p = vars[j]->Int_0.name + seq![' '];
    let pre = integers_block(vars.drop_last());
    if j == vars.len() - 1 {
        assert(integers_block(vars) == pre + p);
        assert(p.subrange(0, p.len() as int) =~= p);
        lemma_occurs_in_concat(pre, p, seq![], p, 0);
        assert(pre + p + seq![] =~= pre + p);
    } else {
        assert(vars.drop_last()[j] == vars[j]);
        law_integers_listed(vars.drop_last(), j);
        let k = choose|k: int| occurs_at(pre, p, k);
        let post = match vars.last() {
            Term::Int(v) => v.name + seq![' '],
            _ => seq![],
        };
        lemma_occurs_in_concat(seq![], pre, post, p, k);
        assert(seq![] + pre + post =~= integers_block(vars));
    }
}

/// The line `  lower <= name <= upper`.
pub open spec fn two_sided_line(n: Seq<char>, l: Decimal, u: Decimal) -> Seq<char> {
    seq![' ', ' '] + dec_text(l) + seq![' ', '<', '=', ' '] + n + seq![' ', '<', '=', ' '] + dec_text(u) + seq!['\n']
}

/// The line `  name free`.
pub open spec fn free_line(n: Seq<char>) -> Seq<char> {
    seq![' ', ' '] + n + seq![' ', 'f', 'r', 'e', 'e', '\n']
}

/// The bounds line that the bounds block holds for an integer or
/// continuous variable: `  lower <= name <= upper` for one with both
/// bounds, `  name free` for a continuous one without bounds.
pub open spec fn expected_bound_line(t: Term) -> Option<Seq<char>> {
    match t {
        Term::Int(v) => if v.lower is Some && v.upper is Some {
            Some(two_sided_line(v.name, v.lower->0, v.upper->0))
        } else {
            None
        },
        Term::Cont(v) => if v.lower is Some && v.upper is Some {
            Some(two_sided_line(v.name, v.lower->0, v.upper->0))
        } else if v.lower is None && v.upper is None {
            Some(free_line(v.name))
        } else {
            None
        },
        _ => None,
    }
}

/// Every variable with both bounds has its line `  lower <= name <= upper`
/// in the bounds block, and every continuous variable without bounds its
/// line `  name free`.
pub proof fn law_bounds_listed(vars: Seq<Term>, j: int)
    requires
        0 <= j < vars.len(),
        expected_bound_line(vars[j]) is Some,
    ensures
        exists|k: int| occurs_at(bounds_block(vars), expected_bound_line(vars[j])->0, k),
    decreases vars.len(),
{
    let p = expected_bound_line(vars[j])->0;
    let pre = bounds_block(vars.drop_last());
    if j == vars.len() - 1 {
        assert(bound_line(vars[j]) =~= p);
        assert(bounds_block(vars) == pre + p);
        assert(p.subrange(0, p.len() as int) =~= p);
        lemma_occurs_in_concat(pre, p, seq![], p, 0);
        assert(pre + p + seq![] =~= pre + p);
        assert(occurs_at(bounds_block(vars), p, pre.len() as int));
    } else {
        assert(vars.drop_last()[j] == vars[j]);
        law_bounds_listed(vars.drop_last(), j);
        let k = choose|k: int| occurs_at(pre, p, k);
        let post = bound_line(vars.last());
        lemma_occurs_in_concat(seq![], pre, post, p, k);
        assert(seq![] + pre + post =~= bounds_block(vars));
        assert(occurs_at(bounds_block(vars), p, k));
    }
}

/// The text of a problem holds its Binary section: the header `Binary`
/// followed by the binaries block of its variables, which lists every
/// binary variable of the constraints (see `law_binaries_listed`), so that
/// the solver keeps each of them to 0 or 1.
pub proof fn law_problem_binary_section(
    name: Seq<char>,
    sense: LpObjective,
    obj: Option<Term>,
    cs: Seq<(Term, Constraint, Term)>,
    j: int,
)
    requires
        0 <= j < problem_variables(cs).len(),
        problem_variables(cs)[j] is Bin,
    ensures
        exists|k: int|
            occurs_at(
                problem_text(name, sense, obj, cs),
                binary_header() + binaries_block(problem_variables(cs)),
                k,
            ),
{
    let vars = problem_variables(cs);
    law_binaries_listed(vars, j);
    let bin = binaries_block(vars);
    let k0 = choose|k: int| occurs_at(bin, vars[j]->Bin_0 + seq![' '], k);
    assert(bin.len() > 0);
    let cb = constraints_block(cs);
    let bb = bounds_block(vars);
    let ib = integers_block(vars);
    let head = seq!['\\', ' '] + name + seq!['\n', '\n'] + objective_block(sense, obj);
    let before = head + section(subject_to_header(), cb, false) + section(bounds_header(), bb, false) + section(
        generals_header(),
        ib,
        true,
    );
    let p = binary_header() + bin;
    let after = seq!['\n'] + seq!['\n', 'E', 'n', 'd'];
    assert(problem_text(name, sense, obj, cs) =~= before + p + after);
    assert(p.subrange(0, p.len() as int) =~= p);
    lemma_occurs_in_concat(before, p, after, p, 0);
}

/// Text of a whole problem in the LP format.
pub open spec fn problem_text(
    name: Seq<char>,
    sense: LpObjective,
    obj: Option<Term>,
    cs: Seq<(Term, Constraint, Term)>,
) -> Seq<char> {
    let vars = problem_variables(cs);
    let cb = constraints_block(cs);
    let bb = bounds_block(vars);
    let ib = integers_block(vars);
    let bin = binaries_block(vars);
    seq!['\\', ' '] + name + seq!['\n', '\n'] + objective_block(sense, obj) + sections_text(cb, bb, ib, bin)
}

pub open spec fn subject_to_header() -> Seq<char> {
    seq!['\n', '\n', 'S', 'u', 'b', 'j', 'e', 'c', 't', ' ', 'T', 'o', '\n']
}

pub open spec fn bounds_header() -> Seq<char> {
    seq!['\n', 'B', 'o', 'u', 'n', 'd', 's', '\n']
}

pub open spec fn generals_header() -> Seq<char> {
    seq!['\n', 'G', 'e', 'n', 'e', 'r', 'a', 'l', 's', '\n', ' ', ' ']
}

pub open spec fn binary_header() -> Seq<char> {
    seq!['\n', 'B', 'i', 'n', 'a', 'r', 'y', '\n', ' ', ' ']
}

/// A section: its header and body, and a final newline when `nl`; nothing
/// when the body is empty.
pub open spec fn section(hdr: Seq<char>, body: Seq<char>, nl: bool) -> Seq<char> {
    if body.len() > 0 {
        hdr + body + (if nl { seq!['\n'] } else { seq![] })
    } else {
        seq![]
    }
}

/// The optional sections after the objective, and the final `End`.
pub open spec fn sections_text(cb: Seq<char>, bb: Seq<char>, ib: Seq<char>, bin: Seq<char>) -> Seq<char> {
    section(subject_to_header(), cb, false) + section(bounds_header(), bb, false) + section(
        generals_header(),
        ib,
        true,
    ) + section(binary_header(), bin, true) + seq!['\n', 'E', 'n', 'd']
}

/// Every expression of the problem can be written.
pub open spec fn problem_writable(obj: Option<Term>, cs: Seq<(Term, Constraint, Term)>) -> bool {
    &&& obj matches Some(e) ==> expr_writable(e)
    &&& forall|i: int| 0 <= i < cs.len() ==> constraint_writable(#[trigger] cs[i])
}

} // verus!

verus! {

fn push_lt(out: &mut Vec<char>)
    ensures
        final(out)@ == old(out)@ + seq![' ', '<', '=', ' '],
{
    out.push(' ');
    out.push('<');
    out.push('=');
    out.push(' ');
}

fn push_name(out: &mut Vec<char>, name: &String)
    ensures
        final(out)@ == old(out)@ + name@,
{
    let mut cs = crate::text::chars_of_str(name.as_str());
    out.append(&mut cs);
}

/// Appends the bounds line of a variable; see `bound_line`.
fn push_bound_line(t: &LpExpression, out: &mut Vec<char>)
    ensures
        final(out)@ == old(out)@ + bound_line(t@),
{
    match t {
        LpExpression::ConsInt(v) => push_var_bounds(out, &v.name, v.lower_bound, v.upper_bound, false),
        LpExpression::ConsCont(v) => push_var_bounds(out, &v.name, v.lower_bound, v.upper_bound, true),
        _ => {
            assert(out@ =~= old(out)@ + bound_line(t@));
        },
    }
}

/// Appends the bounds line of a variable; see `var_bounds`.
fn push_var_bounds(out: &mut Vec<char>, name: &String, lower: Option<Decimal>, upper: Option<Decimal>, continuous: bool)
    ensures
        final(out)@ == old(out)@ + var_bounds(name@, lower, upper, continuous),
{
    let ghost start = out@;
    match (lower, upper) {
        (Some(l), Some(u)) => {
            out.push(' ');
            out.push(' ');
            l.write_text(out);
            push_lt(out);
            push_name(out, name);
            push_lt(out);
            u.write_text(out);
            out.push('\n');
            assert(out@ =~= start + (seq![' ', ' '] + dec_text(l) + seq![' ', '<', '=', ' '] + name@
                + seq![' ', '<', '=', ' '] + dec_text(u) + seq!['\n']));
        },
        (Some(l), None) => {
            out.push(' ');
            out.push(' ');
            l.write_text(out);
            push_lt(out);
            push_name(out, name);
            out.push('\n');
            assert(out@ =~= start + (seq![' ', ' '] + dec_text(l) + seq![' ', '<', '=', ' '] + name@
                + seq!['\n']));
        },
        (None, Some(u)) => {
            out.push(' ');
            out.push(' ');
            push_name(out, name);
            push_lt(out);
            u.write_text(out);
            out.push('\n');
            assert(out@ =~= start + (seq![' ', ' '] + name@ + seq![' ', '<', '=', ' '] + dec_text(u)
                + seq!['\n']));
        },
        (None, None) => {
            if continuous {
                out.push(' ');
                out.push(' ');
                push_name(out, name);
                out.push(' ');
                out.push('f');
                out.push('r');
                out.push('e');
                out.push('e');
                out.push('\n');
                assert(out@ =~= start + (seq![' ', ' '] + name@ + seq![' ', 'f', 'r', 'e', 'e']
                    + seq!['\n']));
            } else {
                assert(out@ =~= start + Seq::<char>::empty());
            }
        },
    }
}

/// The bounds block of a list of variables; see `bounds_block`.
fn bounds_text(vars: &Vec<LpExpression>) -> (r: Vec<char>)
    ensures
        r@ == bounds_block(crate::dsl::variables::terms_of(vars@)),
{
    let ghost ts = crate::dsl::variables::terms_of(vars@);
    let mut out: Vec<char> = Vec::new();
    let mut i: usize = 0;
    while i < vars.len()
        invariant
            i <= vars.len(),
            ts == crate::dsl::variables::terms_of(vars@),
            out@ == bounds_block(ts.take(i as int)),
        decreases vars.len() - i,
    {
        push_bound_line(&vars[i], &mut out);
        proof {
            assert(ts.take(i + 1).drop_last() =~= ts.take(i as int));
        }
        i = i + 1;
    }
    assert(ts.take(vars.len() as int) =~= ts);
    out
}

/// The names of the integer (`integers == true`) or binary variables, each
/// followed by a space.
fn names_text(vars: &Vec<LpExpression>, integers: bool) -> (r: Vec<char>)
    ensures
        integers ==> r@ == integers_block(crate::dsl::variables::terms_of(vars@)),
        !integers ==> r@ == binaries_block(crate::dsl::variables::terms_of(vars@)),
{
    let ghost ts = crate::dsl::variables::terms_of(vars@);
    let mut out: Vec<char> = Vec::new();
    let mut i: usize = 0;
    while i < vars.len()
        invariant
            i <= vars.len(),
            ts == crate::dsl::variables::terms_of(vars@),
            integers ==> out@ == integers_block(ts.take(i as int)),
            !integers ==> out@ == binaries_block(ts.take(i as int)),
        decreases vars.len() - i,
    {
        proof {
            assert(ts.take(i + 1).drop_last() =~= ts.take(i as int));
        }
        match &vars[i] {
            LpExpression::ConsInt(v) => {
                if integers {
                    push_name(&mut out, &v.name);
                    out.push(' ');
                }
            },
            LpExpression::ConsBin(v) => {
                if !integers {
                    push_name(&mut out, &v.name);
                    out.push(' ');
                }
            },
            _ => {},
        }
        proof {
            if integers {
                assert(out@ =~= integers_block(ts.take(i + 1)));
            } else {
                assert(out@ =~= binaries_block(ts.take(i + 1)));
            }
        }
        i = i + 1;
    }
    assert(ts.take(vars.len() as int) =~= ts);
    out
}

/// Appends a constraint line; see `constraint_line`.
fn push_constraint_line(out: &mut Vec<char>, k: u64, c: &LpConstraint) -> (ok: bool)
    ensures
        ok == constraint_writable(c@),
        ok ==> final(out)@ == old(out)@ + constraint_line(k as nat, c@),
{
    let ghost start = out@;
    out.push(' ');
    out.push(' ');
    out.push('c');
    push_nat_digits(k, out);
    out.push(':');
    out.push(' ');
    if !push_constraint_text(c, out) {
        return false;
    }
    out.push('\n');
    assert(out@ =~= start + constraint_line(k as nat, c@));
    true
}

/// The constraints block, or `None` where a constraint cannot be written.
fn constraints_text(cs: &Vec<LpConstraint>) -> (r: Option<Vec<char>>)
    ensures
        (r is Some) == (forall|i: int|
            0 <= i < cs.len() ==> constraint_writable(#[trigger] constraint_models(cs@)[i])),
        r matches Some(t) ==> t@ == constraints_block(constraint_models(cs@)),
{
    let ghost ms = constraint_models(cs@);
    let mut out: Vec<char> = Vec::new();
    let mut i: usize = 0;
    while i < cs.len()
        invariant
            i <= cs.len(),
            ms == constraint_models(cs@),
            forall|j: int| 0 <= j < i ==> constraint_writable(#[trigger] ms[j]),
            out@ == constraints_block(ms.take(i as int)),
        decreases cs.len() - i,
    {
        if !push_constraint_line(&mut out, (i + 1) as u64, &cs[i]) {
            assert(!constraint_writable(ms[i as int]));
            return None;
        }
        proof {
            assert(ms.take(i + 1).drop_last() =~= ms.take(i as int));
            assert(ms.take(i + 1).last() == ms[i as int]);
        }
        i = i + 1;
    }
    assert(ms.take(cs.len() as int) =~= ms);
    Some(out)
}

/// Appends a section; see `section`.
fn push_section(out: &mut Vec<char>, hdr: &Vec<char>, body: &Vec<char>, nl: bool)
    ensures
        final(out)@ == old(out)@ + section(hdr@, body@, nl),
{
    let ghost s0 = out@;
    if body.len() > 0 {
        crate::text::push_chars(out, hdr);
        crate::text::push_chars(out, body);
        if nl {
            out.push('\n');
        }
        assert(out@ =~= s0 + section(hdr@, body@, nl));
    } else {
        assert(out@ =~= s0 + section(hdr@, body@, nl));
    }
}

/// Appends the sections after the objective; see `sections_text`.
fn push_sections(out: &mut Vec<char>, cb: &Vec<char>, bb: &Vec<char>, ib: &Vec<char>, bin: &Vec<char>)
    ensures
        final(out)@ == old(out)@ + sections_text(cb@, bb@, ib@, bin@),
{
    let ghost s0 = out@;
    let h1 = vec!['\n', '\n', 'S', 'u', 'b', 'j', 'e', 'c', 't', ' ', 'T', 'o', '\n'];
    let h2 = vec!['\n', 'B', 'o', 'u', 'n', 'd', 's', '\n'];
    let h3 = vec!['\n', 'G', 'e', 'n', 'e', 'r', 'a', 'l', 's', '\n', ' ', ' '];
    let h4 = vec!['\n', 'B', 'i', 'n', 'a', 'r', 'y', '\n', ' ', ' '];
    assert(h1@ =~= subject_to_header());
    assert(h2@ =~= bounds_header());
    assert(h3@ =~= generals_header());
    assert(h4@ =~= binary_header());
    push_section(out, &h1, cb, false);
    push_section(out, &h2, bb, false);
    push_section(out, &h3, ib, true);
    push_section(out, &h4, bin, true);
    out.push('\n');
    out.push('E');
    out.push('n');
    out.push('d');
    assert(out@ =~= s0 + sections_text(cb@, bb@, ib@, bin@));
}

/// Appends the head of the problem's text: its name and objective block;
/// `false` where the objective cannot be written.
fn push_head(p: &LpProblem, out: &mut Vec<char>) -> (ok: bool)
    ensures
        ok == (p.objective() matches Some(e) ==> expr_writable(e)),
        ok ==> final(out)@ == old(out)@ + seq!['\\', ' '] + p.name@ + seq!['\n', '\n']
            + objective_block(p.objective_type, p.objective()),
{
    let ghost s0 = out@;
    out.push('\\');
    out.push(' ');
    push_name(out, &p.name);
    out.push('\n');
    out.push('\n');
    let ghost head = out@;
    if let Some(e) = &p.obj_expr {
        let sense: Vec<char> = match p.objective_type {
            LpObjective::Maximize => vec!['M', 'a', 'x', 'i', 'm', 'i', 'z', 'e', '\n', ' ', ' '],
            LpObjective::Minimize => vec!['M', 'i', 'n', 'i', 'm', 'i', 'z', 'e', '\n', ' ', ' '],
        };
        crate::text::push_chars(out, &sense);
        out.push('o');
        out.push('b');
        out.push('j');
        out.push(':');
        out.push(' ');
        if !push_expr_text(e, out) {
            return false;
        }
        assert(out@ =~= head + objective_block(p.objective_type, p.objective()));
    } else {
        assert(out@ =~= head + objective_block(p.objective_type, p.objective()));
    }
    assert(out@ =~= s0 + seq!['\\', ' '] + p.name@ + seq!['\n', '\n'] + objective_block(p.objective_type, p.objective()));
    true
}

/// The problem's text in the LP format, or `None` where one of its
/// expressions cannot be written.
pub fn problem_lp_text(p: &LpProblem) -> (r: Option<Vec<char>>)
    ensures
        (r is Some) == problem_writable(p.objective(), constraint_models(p.constraints@)),
        r matches Some(t) ==> t@ == problem_text(
            p.name@,
            p.objective_type,
            p.objective(),
            constraint_models(p.constraints@),
        ),
{
    let ghost cs = constraint_models(p.constraints@);
    let mut out: Vec<char> = Vec::new();
    if !push_head(p, &mut out) {
        return None;
    }
    let ghost after_obj = out@;
    let cb = match constraints_text(&p.constraints) {
        None => {
            return None;
        },
        Some(t) => t,
    };
    let vars = p.variables();
    let bb = bounds_text(&vars);
    let ib = names_text(&vars, true);
    let bin = names_text(&vars, false);
    push_sections(&mut out, &cb, &bb, &ib, &bin);
    proof {
        assert(out@ =~= problem_text(p.name@, p.objective_type, p.objective(), cs));
    }
    Some(out)
}

} // verus!

verus! {

/// Values that have a text in the LP format.
pub trait LpFileFormat {
    /// The text can be produced: every simplification it needs stops.
    spec fn lp_writable(&self) -> bool;

    /// The text in the LP format.
    spec fn lp_text(&self) -> Seq<char>;

    /// The text in the LP format, or `None` where it cannot be produced.
    fn checked_lp_file_format(&self) -> (r: Option<String>)
        ensures
            (r is Some) == self.lp_writable(),
            r matches Some(s) ==> s@ == self.lp_text(),
    ;

    /// The text in the LP format.
    fn to_lp_file_format(&self) -> (r: String)
        requires
            self.lp_writable(),
        ensures
            r@ == self.lp_text(),
    ;
}

impl LpFileFormat for LpExpression {
    open spec fn lp_writable(&self) -> bool {
        expr_writable(self@)
    }

    open spec fn lp_text(&self) -> Seq<char> {
        expr_text(self@)
    }

    fn checked_lp_file_format(&self) -> (r: Option<String>) {
        let mut out: Vec<char> = Vec::new();
        if push_expr_text(self, &mut out) {
            assert(out@ =~= expr_text(self@));
            Some(string_from_chars(&out))
        } else {
            None
        }
    }

    fn to_lp_file_format(&self) -> (r: String) {
        let r = self.checked_lp_file_format();
        r.unwrap()
    }
}

impl LpFileFormat for LpConstraint {
    open spec fn lp_writable(&self) -> bool {
        constraint_writable(self@)
    }

    open spec fn lp_text(&self) -> Seq<char> {
        constraint_text(self@)
    }

    fn checked_lp_file_format(&self) -> (r: Option<String>) {
        let mut out: Vec<char> = Vec::new();
        if push_constraint_text(self, &mut out) {
            assert(out@ =~= constraint_text(self@));
            Some(string_from_chars(&out))
        } else {
            None
        }
    }

    fn to_lp_file_format(&self) -> (r: String) {
        let r = self.checked_lp_file_format();
        r.unwrap()
    }
}

impl LpFileFormat for LpProblem {
    open spec fn lp_writable(&self) -> bool {
        problem_writable(self.objective(), constraint_models(self.constraints@))
    }

    open spec fn lp_text(&self) -> Seq<char> {
        problem_text(self.name@, self.objective_type, self.objective(), constraint_models(self.constraints@))
    }

    fn checked_lp_file_format(&self) -> (r: Option<String>) {
        match problem_lp_text(self) {
            Some(t) => Some(string_from_chars(&t)),
            None => None,
        }
    }

    fn to_lp_file_format(&self) -> (r: String) {
        let r = self.checked_lp_file_format();
        r.unwrap()
    }
}

} // verus!
