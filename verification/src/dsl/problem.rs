//! Linear problems: an objective and a list of constraints.

use vstd::prelude::*;

use crate::dsl::simplify::{mk_add, simplified, simplify, simplify_halts, try_simplify};
use crate::dsl::variables::{
    split_constant, split_constant_and_expr, LpConstraint, LpExpression, Term,
};
use crate::text::{chars_of_str, string_from_chars};

verus! {

/// Sense of the objective function.
#[derive(Debug, PartialEq, Eq, Structural, Clone, Copy)]
pub enum LpObjective {
    Minimize,
    Maximize,
}

/// A random identifier in the hyphenated lowercase form
/// `xxxxxxxx-xxxx-xxxx-xxxx-xxxxxxxxxxxx`.
pub open spec fn is_uuid_text(s: Seq<char>) -> bool {
    &&& s.len() == 36
    &&& forall|i: int|
        0 <= i < 36 ==> if i == 8 || i == 13 || i == 18 || i == 23 {
            s[i] == '-'
        } else {
            ('0' <= #[trigger] s[i] <= '9') || ('a' <= s[i] <= 'f')
        }
}

/// Lowercase hexadecimal digit of `n` (`0 <= n < 16`).
pub open spec fn hex_digit(n: int) -> char {
    if n < 10 {
        (48 + n) as char
    } else {
        (87 + n) as char
    }
}

/// Byte `i` of a version-4 identifier made of `b`: the version nibble `4`
/// set in byte 6 and the variant bits `10` set in byte 8.
pub open spec fn v4_byte(b: Seq<u8>, i: int) -> u8 {
    if i == 6 {
        (b[6] & 0x0f) | 0x40
    } else if i == 8 {
        (b[8] & 0x3f) | 0x80
    } else {
        b[i]
    }
}

/// The 32 hexadecimal digits of the version-4 identifier made of `b`,
/// high nibble first.
pub open spec fn v4_digit(b: Seq<u8>, k: int) -> char {
    let byte = v4_byte(b, k / 2);
    if k % 2 == 0 {
        hex_digit((byte / 16) as int)
    } else {
        hex_digit((byte % 16) as int)
    }
}

/// The text of the version-4 identifier made of the 16 bytes `b`: its 32
/// digits in groups of 8, 4, 4, 4 and 12 separated by hyphens.
pub open spec fn uuid_v4_text(b: Seq<u8>) -> Seq<char> {
    Seq::new(
        36,
        |p: int|
            if p == 8 || p == 13 || p == 18 || p == 23 {
                '-'
            } else if p < 8 {
                v4_digit(b, p)
            } else if p < 13 {
                v4_digit(b, p - 1)
            } else if p < 18 {
                v4_digit(b, p - 2)
            } else if p < 23 {
                v4_digit(b, p - 3)
            } else {
                v4_digit(b, p - 4)
            },
    )
}

/// Sixteen random bytes from the system's source (`getrandom::getrandom`);
/// `None` where the source fails. Which bytes come out is left open.
#[verifier::external_body]
fn random_bytes() -> (r: Option<[u8; 16]>) {
    let mut bytes = [0u8; 16];
    match getrandom::getrandom(&mut bytes) {
        Ok(()) => Some(bytes),
        Err(_) => None,
    }
}

/// The text of the version-4 identifier made of `bytes`: builds it with
/// `uuid::Builder` (variant RFC 4122, version 4) and writes it with the
/// `Display` of `uuid::Uuid`, hyphenated and in lowercase.
#[verifier::external_body]
fn uuid_text(bytes: [u8; 16]) -> (s: String)
    ensures
        s@ == uuid_v4_text(bytes@),
        is_uuid_text(s@),
{
    uuid::Builder::from_bytes(bytes)
        .set_variant(uuid::Variant::RFC4122)
        .set_version(uuid::Version::Random)
        .build()
        .to_string()
}

/// A fresh random identifier. Where the system gives no random bytes, the
/// identifier made of sixteen zero bytes stands in for one, so that no call
/// fails; which identifier comes out is otherwise left open.
pub(crate) fn random_uuid_text() -> (s: String)
    ensures
        is_uuid_text(s@),
        exists|b: Seq<u8>| b.len() == 16 && s@ == uuid_v4_text(b),
{
    let bytes = match random_bytes() {
        Some(b) => b,
        None => [0u8; 16],
    };
    let s = uuid_text(bytes);
    proof {
        assert(bytes@.len() == 16);
    }
    s
}

/// A problem: its name, a unique name for its files, the sense of the
/// objective, the objective and the constraints.
#[derive(Debug)]
pub struct LpProblem {
    pub name: String,
    pub unique_name: String,
    pub objective_type: LpObjective,
    pub obj_expr: Option<LpExpression>,
    pub constraints: Vec<LpConstraint>,
}

/// Models of the constraints of a problem.
pub open spec fn constraint_models(v: Seq<LpConstraint>) -> Seq<(Term, crate::dsl::variables::Constraint, Term)> {
    v.map_values(|c: LpConstraint| c@)
}

/// Model of an optional expression.
pub open spec fn opt_model(o: Option<LpExpression>) -> Option<Term> {
    match o {
        Some(e) => Some(e@),
        None => None,
    }
}

/// The objective after adding `e` to the objective `old`: the simplified sum
/// without its trailing literal.
pub open spec fn added_objective(old: Option<Term>, e: Term) -> Term {
    match old {
        Some(o) => split_constant(simplified(mk_add(e, o))).1,
        None => split_constant(simplified(e)).1,
    }
}

/// The simplification that adding `e` to the objective `old` performs stops.
pub open spec fn objective_halts(old: Option<Term>, e: Term) -> bool {
    match old {
        Some(o) => simplify_halts(mk_add(e, o)),
        None => simplify_halts(e),
    }
}

/// Problems that take objective expressions and constraints.
pub trait Problem {
    spec fn objective(&self) -> Option<Term>;

    spec fn constraint_list(&self) -> Seq<(Term, crate::dsl::variables::Constraint, Term)>;

    /// What identifies the problem apart from its objective and constraints:
    /// its name, its unique name and the sense of its objective.
    spec fn header(&self) -> (Seq<char>, Seq<char>, LpObjective);

    /// Adds `expr` to the objective.
    fn add_objective_expression(&mut self, expr: &LpExpression)
        requires
            objective_halts(old(self).objective(), expr@),
        ensures
            final(self).objective() == Some(added_objective(old(self).objective(), expr@)),
            final(self).constraint_list() == old(self).constraint_list(),
            final(self).header() == old(self).header(),
    ;

    /// Appends a constraint.
    fn add_constraints(&mut self, constraint: &LpConstraint)
        ensures
            final(self).constraint_list() == old(self).constraint_list().push(constraint@),
            final(self).objective() == old(self).objective(),
            final(self).header() == old(self).header(),
    ;
}

impl LpProblem {
    /// A problem with no objective and no constraints, whose unique name is
    /// its name, `_` and a random identifier.
    pub fn new(name: &str, objective: LpObjective) -> (r: LpProblem)
        ensures
            r.name@ == name@,
            exists|u: Seq<char>| is_uuid_text(u) && r.unique_name@ == name@ + seq!['_'] + u,
            exists|b: Seq<u8>| b.len() == 16 && r.unique_name@ == name@ + seq!['_'] + uuid_v4_text(b),
            r.objective_type == objective,
            r.obj_expr is None,
            r.constraints@.len() == 0,
    {
        let id = random_uuid_text();
        let mut text = chars_of_str(name);
        text.push('_');
        let mut idc = chars_of_str(id.as_str());
        text.append(&mut idc);
        let unique_name = string_from_chars(&text);
        proof {
            assert(unique_name@ == name@ + seq!['_'] + id@);
        }
        LpProblem {
            name: name.to_owned(),
            unique_name,
            objective_type: objective,
            obj_expr: None,
            constraints: Vec::new(),
        }
    }
}

impl Problem for LpProblem {
    open spec fn objective(&self) -> Option<Term> {
        opt_model(self.obj_expr)
    }

    open spec fn constraint_list(&self) -> Seq<(Term, crate::dsl::variables::Constraint, Term)> {
        constraint_models(self.constraints@)
    }

    open spec fn header(&self) -> (Seq<char>, Seq<char>, LpObjective) {
        (self.name@, self.unique_name@, self.objective_type)
    }

    fn add_objective_expression(&mut self, expr: &LpExpression) {
        let sum = match &self.obj_expr {
            Some(e) => LpExpression::AddExpr(Box::new(expr.copy()), Box::new(e.copy())),
            None => expr.copy(),
        };
        let simple = simplify(&sum);
        let (_, rest) = split_constant_and_expr(&simple);
        self.obj_expr = Some(rest);
    }

    fn add_constraints(&mut self, constraint: &LpConstraint) {
        self.constraints.push(constraint.clone());
        proof {
            assert(constraint_models(self.constraints@) =~= constraint_models(
                old(self).constraints@,
            ).push(constraint@));
        }
    }
}

} // verus!

verus! {

/// Name of a variable term; empty for other terms.
pub open spec fn var_name(t: Term) -> Seq<char> {
    match t {
        Term::Int(v) => v.name,
        Term::Bin(n) => n,
        Term::Cont(v) => v.name,
        _ => seq![],
    }
}

/// The variables of an expression as `variables` walks it: both operands of
/// sums and differences, only the right operand of products.
pub open spec fn var_occurrences(t: Term) -> Seq<Term>
    decreases t,
{
    match t {
        Term::Int(_) => seq![t],
        Term::Bin(_) => seq![t],
        Term::Cont(_) => seq![t],
        Term::Mul(_, e) => var_occurrences(*e),
        Term::Add(a, b) => var_occurrences(*a) + var_occurrences(*b),
        Term::Sub(a, b) => var_occurrences(*a) + var_occurrences(*b),
        _ => seq![],
    }
}

/// Variables of the left-hand sides of a list of constraints, in order.
pub open spec fn constraint_occurrences(cs: Seq<(Term, crate::dsl::variables::Constraint, Term)>) -> Seq<Term>
    decreases cs.len(),
{
    if cs.len() == 0 {
        seq![]
    } else {
        constraint_occurrences(cs.drop_last()) + var_occurrences(cs.last().0)
    }
}

/// First index of a term named `n` in `d`, or `-1`.
pub open spec fn find_name(d: Seq<Term>, n: Seq<char>) -> int
    decreases d.len(),
{
    if d.len() == 0 {
        -1
    } else {
        let k = find_name(d.drop_last(), n);
        if k >= 0 {
            k
        } else if var_name(d.last()) == n {
            d.len() - 1
        } else {
            -1
        }
    }
}

/// Records `t` in `d`: replaces the term of the same name, or appends.
pub open spec fn record_var(d: Seq<Term>, t: Term) -> Seq<Term> {
    let j = find_name(d, var_name(t));
    if j >= 0 {
        d.update(j, t)
    } else {
        d.push(t)
    }
}

/// Records the occurrences `occ` in `d`, in order.
pub open spec fn record_vars(d: Seq<Term>, occ: Seq<Term>) -> Seq<Term>
    decreases occ.len(),
{
    if occ.len() == 0 {
        d
    } else {
        record_var(record_vars(d, occ.drop_last()), occ.last())
    }
}

/// One term per variable name of the constraints, in order of first
/// occurrence, each the last occurrence of its name.
pub open spec fn problem_variables(cs: Seq<(Term, crate::dsl::variables::Constraint, Term)>) -> Seq<Term> {
    record_vars(seq![], constraint_occurrences(cs))
}

pub proof fn lemma_record_vars_concat(d: Seq<Term>, a: Seq<Term>, b: Seq<Term>)
    ensures
        record_vars(d, a + b) == record_vars(record_vars(d, a), b),
    decreases b.len(),
{
    if b.len() == 0 {
        assert(a + b =~= a);
    } else {
        assert((a + b).drop_last() =~= a + b.drop_last());
        lemma_record_vars_concat(d, a, b.drop_last());
    }
}

pub proof fn lemma_find_name(d: Seq<Term>, n: Seq<char>, i: int)
    requires
        0 <= i <= d.len(),
        forall|j: int| 0 <= j < i ==> var_name(#[trigger] d[j]) != n,
        i < d.len() ==> var_name(d[i]) == n,
    ensures
        find_name(d, n) == (if i < d.len() { i } else { -1 }),
    decreases d.len(),
{
    if d.len() > 0 {
        if i < d.len() - 1 {
            lemma_find_name(d.drop_last(), n, i);
        } else {
            lemma_find_name(d.drop_last(), n, d.len() - 1);
        }
    }
}

/// The names of the terms of `d` differ.
pub open spec fn distinct_names(d: Seq<Term>) -> bool {
    forall|i: int, j: int| 0 <= i < j < d.len() ==> var_name(#[trigger] d[i]) != var_name(#[trigger] d[j])
}

/// Some term of `d` is named `n`.
pub open spec fn has_name(d: Seq<Term>, n: Seq<char>) -> bool {
    exists|j: int| 0 <= j < d.len() && var_name(#[trigger] d[j]) == n
}

pub proof fn lemma_find_name_found(d: Seq<Term>, n: Seq<char>)
    ensures
        find_name(d, n) >= 0 ==> find_name(d, n) < d.len() && var_name(d[find_name(d, n)]) == n,
        find_name(d, n) < 0 ==> !has_name(d, n),
    decreases d.len(),
{
    if d.len() > 0 {
        lemma_find_name_found(d.drop_last(), n);
        if find_name(d, n) < 0 {
            assert forall|j: int| 0 <= j < d.len() implies var_name(#[trigger] d[j]) != n by {
                if j < d.len() - 1 {
                    assert(d.drop_last()[j] == d[j]);
                }
            }
        }
    }
}

proof fn lemma_record_var_names(d: Seq<Term>, t: Term)
    requires
        distinct_names(d),
    ensures
        distinct_names(record_var(d, t)),
        has_name(record_var(d, t), var_name(t)),
        forall|n: Seq<char>| has_name(d, n) ==> has_name(record_var(d, t), n),
        forall|j: int| 0 <= j < record_var(d, t).len() ==> #[trigger] record_var(d, t)[j] == t || d.contains(
            record_var(d, t)[j],
        ),
{
    let n = var_name(t);
    lemma_find_name_found(d, n);
    let k = find_name(d, n);
    let r = record_var(d, t);
    if k >= 0 {
        assert(r == d.update(k, t));
        assert(var_name(r[k]) == n);
        assert forall|m: Seq<char>| has_name(d, m) implies has_name(r, m) by {
            let j = choose|j: int| 0 <= j < d.len() && var_name(#[trigger] d[j]) == m;
            if j == k {
                assert(var_name(r[k]) == m);
            } else {
                assert(var_name(r[j]) == m);
            }
        }
        assert forall|j: int| 0 <= j < r.len() implies #[trigger] r[j] == t || d.contains(r[j]) by {
            if j != k {
                assert(r[j] == d[j]);
            }
        }
    } else {
        assert(r == d.push(t));
        assert(var_name(r[d.len() as int]) == n);
        assert forall|m: Seq<char>| has_name(d, m) implies has_name(r, m) by {
            let j = choose|j: int| 0 <= j < d.len() && var_name(#[trigger] d[j]) == m;
            assert(r[j] == d[j]);
        }
        assert forall|j: int| 0 <= j < r.len() implies #[trigger] r[j] == t || d.contains(r[j]) by {
            if j < d.len() {
                assert(r[j] == d[j]);
            }
        }
    }
}

proof fn lemma_record_vars_names(d: Seq<Term>, occ: Seq<Term>)
    requires
        distinct_names(d),
    ensures
        distinct_names(record_vars(d, occ)),
        forall|k: int| 0 <= k < occ.len() ==> has_name(record_vars(d, occ), var_name(#[trigger] occ[k])),
        forall|j: int| 0 <= j < record_vars(d, occ).len() ==> occ.contains(#[trigger] record_vars(d, occ)[j]) || d.contains(
            record_vars(d, occ)[j],
        ),
    decreases occ.len(),
{
    if occ.len() > 0 {
        let p = occ.drop_last();
        lemma_record_vars_names(d, p);
        let q = record_vars(d, p);
        lemma_record_var_names(q, occ.last());
        let r = record_vars(d, occ);
        assert(r == record_var(q, occ.last()));
        assert forall|k: int| 0 <= k < occ.len() implies has_name(r, var_name(#[trigger] occ[k])) by {
            if k < occ.len() - 1 {
                assert(p[k] == occ[k]);
                assert(has_name(q, var_name(p[k])));
            }
        }
        assert forall|j: int| 0 <= j < r.len() implies occ.contains(#[trigger] r[j]) || d.contains(r[j]) by {
            if r[j] == occ.last() {
                assert(occ[occ.len() - 1] == r[j]);
            } else {
                assert(q.contains(r[j]));
                let i = choose|i: int| 0 <= i < q.len() && q[i] == r[j];
                if p.contains(q[i]) {
                    let m = choose|m: int| 0 <= m < p.len() && p[m] == q[i];
                    assert(occ[m] == p[m]);
                }
            }
        }
    }
}

/// `variables` gives one expression per name: their names differ, every
/// variable of the left-hand sides of the constraints has one, and each of
/// them occurs there.
pub proof fn law_variables_one_per_name(cs: Seq<(Term, crate::dsl::variables::Constraint, Term)>)
    ensures
        distinct_names(problem_variables(cs)),
        forall|k: int|
            0 <= k < constraint_occurrences(cs).len() ==> has_name(
                problem_variables(cs),
                var_name(#[trigger] constraint_occurrences(cs)[k]),
            ),
        forall|j: int|
            0 <= j < problem_variables(cs).len() ==> constraint_occurrences(cs).contains(
                #[trigger] problem_variables(cs)[j],
            ),
{
    let e = Seq::<Term>::empty();
    lemma_record_vars_names(e, constraint_occurrences(cs));
    assert forall|j: int| 0 <= j < problem_variables(cs).len() implies constraint_occurrences(cs).contains(
        #[trigger] problem_variables(cs)[j],
    ) by {
        assert(!e.contains(problem_variables(cs)[j]));
    }
}

/// Name of a variable expression.
pub(crate) fn var_name_of(e: &LpExpression) -> (r: String)
    requires
        e@ is Int || e@ is Bin || e@ is Cont,
    ensures
        r@ == var_name(e@),
{
    match e {
        LpExpression::ConsInt(v) => v.name.clone(),
        LpExpression::ConsBin(v) => v.name.clone(),
        LpExpression::ConsCont(v) => v.name.clone(),
        _ => {
            assert(false);
            String::new()
        },
    }
}

/// All terms are variables.
pub open spec fn all_vars(d: Seq<Term>) -> bool {
    forall|j: int| 0 <= j < d.len() ==> (#[trigger] d[j] is Int || d[j] is Bin || d[j] is Cont)
}

/// Records a variable in `acc`; see `record_var`.
fn record_var_exec(acc: &mut Vec<LpExpression>, t: &LpExpression)
    requires
        t@ is Int || t@ is Bin || t@ is Cont,
        all_vars(crate::dsl::variables::terms_of(old(acc)@)),
    ensures
        all_vars(crate::dsl::variables::terms_of(final(acc)@)),
        crate::dsl::variables::terms_of(final(acc)@) == record_var(
            crate::dsl::variables::terms_of(old(acc)@),
            t@,
        ),
{
    let ghost d = crate::dsl::variables::terms_of(acc@);
    let name = var_name_of(t);
    let mut i: usize = 0;
    while i < acc.len()
        invariant
            i <= acc.len(),
            d == crate::dsl::variables::terms_of(acc@),
            acc@ == old(acc)@,
            all_vars(d),
            t@ is Int || t@ is Bin || t@ is Cont,
            name@ == var_name(t@),
            forall|j: int| 0 <= j < i ==> var_name(#[trigger] d[j]) != name@,
        decreases acc.len() - i,
    {
        let found = match &acc[i] {
            LpExpression::ConsInt(v) => v.name == name,
            LpExpression::ConsBin(v) => v.name == name,
            LpExpression::ConsCont(v) => v.name == name,
            _ => false,
        };
        proof {
            assert(d[i as int] == acc@[i as int]@);
        }
        if found {
            proof {
                lemma_find_name(d, name@, i as int);
            }
            acc.set(i, t.copy());
            proof {
                assert(crate::dsl::variables::terms_of(acc@) =~= d.update(i as int, t@));
                assert forall|j: int| 0 <= j < d.len() implies (#[trigger] d.update(i as int, t@)[j] is Int
                    || d.update(i as int, t@)[j] is Bin || d.update(i as int, t@)[j] is Cont) by {
                    if j != i {
                        assert(d.update(i as int, t@)[j] == d[j]);
                    }
                }
            }
            return;
        }
        i = i + 1;
    }
    proof {
        lemma_find_name(d, name@, d.len() as int);
    }
    acc.push(t.copy());
    proof {
        assert(crate::dsl::variables::terms_of(acc@) =~= d.push(t@));
    }
}

/// Records the variables of `e` in `acc`, in the order of
/// `var_occurrences`.
fn collect_vars(e: &LpExpression, acc: &mut Vec<LpExpression>)
    requires
        all_vars(crate::dsl::variables::terms_of(old(acc)@)),
    ensures
        all_vars(crate::dsl::variables::terms_of(final(acc)@)),
        crate::dsl::variables::terms_of(final(acc)@) == record_vars(
            crate::dsl::variables::terms_of(old(acc)@),
            var_occurrences(e@),
        ),
    decreases e,
{
    let ghost d0 = crate::dsl::variables::terms_of(acc@);
    match e {
        LpExpression::ConsInt(_) | LpExpression::ConsBin(_) | LpExpression::ConsCont(_) => {
            record_var_exec(acc, e);
            proof {
                assert(var_occurrences(e@) == seq![e@]);
                assert(seq![e@].drop_last() =~= Seq::<Term>::empty());
                assert(record_vars(d0, seq![e@]) == record_var(record_vars(d0, Seq::<Term>::empty()), e@));
            }
        },
        LpExpression::MulExpr(_, b) => {
            collect_vars(&**b, acc);
        },
        LpExpression::AddExpr(a, b) | LpExpression::SubExpr(a, b) => {
            collect_vars(&**a, acc);
            collect_vars(&**b, acc);
            proof {
                lemma_record_vars_concat(d0, var_occurrences(a@), var_occurrences(b@));
            }
        },
        _ => {
        },
    }
}

impl LpProblem {
    /// One expression per variable name of the left-hand sides of the
    /// constraints; see `problem_variables`. Their names differ, every
    /// variable of a left-hand side has one, and each occurs in a left-hand
    /// side (a variable only in the objective or a right-hand side has none).
    pub fn variables(&self) -> (r: Vec<LpExpression>)
        ensures
            crate::dsl::variables::terms_of(r@) == problem_variables(
                constraint_models(self.constraints@),
            ),
            all_vars(crate::dsl::variables::terms_of(r@)),
            distinct_names(crate::dsl::variables::terms_of(r@)),
            forall|k: int|
                0 <= k < constraint_occurrences(constraint_models(self.constraints@)).len() ==> has_name(
                    crate::dsl::variables::terms_of(r@),
                    var_name(#[trigger] constraint_occurrences(constraint_models(self.constraints@))[k]),
                ),
            forall|j: int|
                0 <= j < r.len() ==> constraint_occurrences(constraint_models(self.constraints@)).contains(
                    #[trigger] crate::dsl::variables::terms_of(r@)[j],
                ),
    {
        let mut acc: Vec<LpExpression> = Vec::new();
        let mut i: usize = 0;
        proof {
            assert(crate::dsl::variables::terms_of(acc@) =~= Seq::<Term>::empty());
        }
        while i < self.constraints.len()
            invariant
                i <= self.constraints.len(),
                all_vars(crate::dsl::variables::terms_of(acc@)),
                crate::dsl::variables::terms_of(acc@) == record_vars(
                    seq![],
                    constraint_occurrences(constraint_models(self.constraints@).take(i as int)),
                ),
            decreases self.constraints.len() - i,
        {
            let ghost before = crate::dsl::variables::terms_of(acc@);
            collect_vars(&self.constraints[i].0, &mut acc);
            proof {
                let cs = constraint_models(self.constraints@);
                assert(cs.take(i + 1).drop_last() =~= cs.take(i as int));
                lemma_record_vars_concat(
                    seq![],
                    constraint_occurrences(cs.take(i as int)),
                    var_occurrences(self.constraints@[i as int].0@),
                );
            }
            i = i + 1;
        }
        proof {
            assert(constraint_models(self.constraints@).take(self.constraints.len() as int)
                =~= constraint_models(self.constraints@));
            law_variables_one_per_name(constraint_models(self.constraints@));
        }
        acc
    }
}

impl core::ops::AddAssign<LpConstraint> for LpProblem {
    /// Appends a constraint; see `add_constraints`.
    fn add_assign(&mut self, rhs: LpConstraint)
        ensures
            final(self).constraint_list() == old(self).constraint_list().push(rhs@),
            final(self).objective() == old(self).objective(),
            final(self).header() == old(self).header(),
    {
        self.add_constraints(&rhs);
    }
}

impl core::ops::AddAssign<LpExpression> for LpProblem {
    /// Adds an expression to the objective; see `add_objective_expression`.
    /// Where that simplification does not stop, the problem is left as it
    /// is.
    fn add_assign(&mut self, rhs: LpExpression)
        ensures
            objective_halts(old(self).objective(), rhs@) ==> final(self).objective() == Some(
                added_objective(old(self).objective(), rhs@),
            ),
            !objective_halts(old(self).objective(), rhs@) ==> final(self).objective() == old(self).objective(),
            final(self).constraint_list() == old(self).constraint_list(),
            final(self).header() == old(self).header(),
    {
        let sum = match &self.obj_expr {
            Some(e) => LpExpression::AddExpr(Box::new(rhs.copy()), Box::new(e.copy())),
            None => rhs.copy(),
        };
        if try_simplify(&sum).is_some() {
            self.add_objective_expression(&rhs);
        }
    }
}

} // verus!
