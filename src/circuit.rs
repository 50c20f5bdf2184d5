//! A constraint set in the shape of an arithmetic-circuit builder: public
//! inputs, gates that each define one new wire from earlier wires, and
//! equality constraints between wires. Each wire denotes a [`Term`] over the
//! public inputs, and the set accepts an input assignment where every pair of
//! connected wires has the same value.
use crate::field::{add_mod, canonical, fe, ints, modulus, mul_mod, reduce, sub_mod};
use vstd::prelude::*;

verus! {

/// One operation of the substrate. Operands are indices of earlier wires; the
/// gate's own output is the next wire. Arithmetic is in the Goldilocks field,
/// and the boolean operations act on wires that hold 0 or 1.
#[derive(Clone, Copy, Debug, PartialEq, Eq, Structural)]
pub enum Gate {
    /// The constant value.
    Constant(u64),
    /// `x + y`.
    Add(usize, usize),
    /// `x * y + z`.
    MulAdd(usize, usize, usize),
    /// 1 where `x == y`, else 0.
    IsEqual(usize, usize),
    /// `1 - b`.
    Not(usize),
    /// `a * b`.
    And(usize, usize),
    /// `a + b - a * b`.
    Or(usize, usize),
    /// `b * x + (1 - b) * y`: `x` where `b` is 1, `y` where it is 0.
    Select(usize, usize, usize),
}

/// What a wire computes, as an expression over the public inputs.
pub enum Term {
    Input(usize),
    Constant(u64),
    Add(Box<Term>, Box<Term>),
    MulAdd(Box<Term>, Box<Term>, Box<Term>),
    IsEqual(Box<Term>, Box<Term>),
    Not(Box<Term>),
    And(Box<Term>, Box<Term>),
    Or(Box<Term>, Box<Term>),
    Select(Box<Term>, Box<Term>, Box<Term>),
}

/// The field value of a term, for public input values `env`.
pub open spec fn val(t: Term, env: Seq<int>) -> int
    decreases t,
{
    match t {
        Term::Input(i) => fe(env[i as int]),
        Term::Constant(c) => fe(c as int),
        Term::Add(x, y) => fe(val(*x, env) + val(*y, env)),
        Term::MulAdd(x, y, z) => fe(val(*x, env) * val(*y, env) + val(*z, env)),
        Term::IsEqual(x, y) => if val(*x, env) == val(*y, env) {
            1
        } else {
            0
        },
        Term::Not(b) => fe(1 - val(*b, env)),
        Term::And(a, b) => fe(val(*a, env) * val(*b, env)),
        Term::Or(a, b) => fe(val(*a, env) + val(*b, env) - val(*a, env) * val(*b, env)),
        Term::Select(b, x, y) => fe(val(*b, env) * val(*x, env) + (1 - val(*b, env)) * val(*y, env)),
    }
}

/// The 0/1 encoding of a truth value.
pub open spec fn bit(b: bool) -> int {
    if b {
        1
    } else {
        0
    }
}

/// The operands of `g` all come before wire `w`.
pub open spec fn gate_before(g: Gate, w: int) -> bool {
    match g {
        Gate::Constant(_) => true,
        Gate::Add(x, y) => x < w && y < w,
        Gate::MulAdd(x, y, z) => x < w && y < w && z < w,
        Gate::IsEqual(x, y) => x < w && y < w,
        Gate::Not(b) => b < w,
        Gate::And(a, b) => a < w && b < w,
        Gate::Or(a, b) => a < w && b < w,
        Gate::Select(b, x, y) => b < w && x < w && y < w,
    }
}

/// The term of wire `w` in a circuit with `n` public inputs and the given
/// gates: wires below `n` are the inputs, wire `n + i` is the output of gate `i`.
pub open spec fn term_of(n: int, gates: Seq<Gate>, w: int) -> Term
    decreases w,
{
    if w < 0 || w >= n + gates.len() {
        Term::Constant(0)
    } else if w < n {
        Term::Input(w as usize)
    } else {
        let g = gates[w - n];
        if !gate_before(g, w) {
            Term::Constant(0)
        } else {
            match g {
                Gate::Constant(c) => Term::Constant(c),
                Gate::Add(x, y) => Term::Add(
                    Box::new(term_of(n, gates, x as int)),
                    Box::new(term_of(n, gates, y as int)),
                ),
                Gate::MulAdd(x, y, z) => Term::MulAdd(
                    Box::new(term_of(n, gates, x as int)),
                    Box::new(term_of(n, gates, y as int)),
                    Box::new(term_of(n, gates, z as int)),
                ),
                Gate::IsEqual(x, y) => Term::IsEqual(
                    Box::new(term_of(n, gates, x as int)),
                    Box::new(term_of(n, gates, y as int)),
                ),
                Gate::Not(b) => Term::Not(Box::new(term_of(n, gates, b as int))),
                Gate::And(a, b) => Term::And(
                    Box::new(term_of(n, gates, a as int)),
                    Box::new(term_of(n, gates, b as int)),
                ),
                Gate::Or(a, b) => Term::Or(
                    Box::new(term_of(n, gates, a as int)),
                    Box::new(term_of(n, gates, b as int)),
                ),
                Gate::Select(b, x, y) => Term::Select(
                    Box::new(term_of(n, gates, b as int)),
                    Box::new(term_of(n, gates, x as int)),
                    Box::new(term_of(n, gates, y as int)),
                ),
            }
        }
    }
}

/// The term of the output of gate `g`, where `terms` holds the terms of the
/// earlier wires.
pub open spec fn gate_term(g: Gate, terms: Seq<Term>) -> Term {
    match g {
        Gate::Constant(c) => Term::Constant(c),
        Gate::Add(x, y) => Term::Add(Box::new(terms[x as int]), Box::new(terms[y as int])),
        Gate::MulAdd(x, y, z) => Term::MulAdd(
            Box::new(terms[x as int]),
            Box::new(terms[y as int]),
            Box::new(terms[z as int]),
        ),
        Gate::IsEqual(x, y) => Term::IsEqual(Box::new(terms[x as int]), Box::new(terms[y as int])),
        Gate::Not(b) => Term::Not(Box::new(terms[b as int])),
        Gate::And(a, b) => Term::And(Box::new(terms[a as int]), Box::new(terms[b as int])),
        Gate::Or(a, b) => Term::Or(Box::new(terms[a as int]), Box::new(terms[b as int])),
        Gate::Select(b, x, y) => Term::Select(
            Box::new(terms[b as int]),
            Box::new(terms[x as int]),
            Box::new(terms[y as int]),
        ),
    }
}

/// A wire of a constraint set, with the term it denotes.
#[derive(Clone, Copy)]
pub struct Wire {
    pub index: usize,
    pub term: Ghost<Term>,
}

/// A constraint set: `num_inputs` public inputs, gates, and equality
/// constraints between pairs of wires; `terms` records the term of each wire.
pub struct ConstraintSet {
    pub num_inputs: usize,
    pub gates: Vec<Gate>,
    pub connections: Vec<(usize, usize)>,
    pub terms: Ghost<Seq<Term>>,
}

impl ConstraintSet {
    /// The number of wires: the inputs and one per gate.
    pub open spec fn num_wires(&self) -> int {
        self.num_inputs + self.gates@.len()
    }

    /// Every gate reads only earlier wires, every constraint joins existing
    /// wires, and `terms` holds the term of every wire.
    pub open spec fn wf(&self) -> bool {
        &&& self.num_wires() <= usize::MAX
        &&& self.terms@.len() == self.num_wires()
        &&& self.terms_match()
        &&& forall|i: int|
            0 <= i < self.gates@.len() ==> gate_before(#[trigger] self.gates@[i], self.num_inputs + i)
        &&& forall|j: int|
            0 <= j < self.connections@.len() ==> (#[trigger] self.connections@[j]).0 < self.num_wires()
                && self.connections@[j].1 < self.num_wires()
    }

    /// `terms` holds the term of every wire.
    #[verifier::opaque]
    pub open spec fn terms_match(&self) -> bool {
        forall|w: int| 0 <= w < self.num_wires() ==> #[trigger] self.terms@[w] == self.term(w)
    }

    /// The term of wire `w`.
    pub open spec fn term(&self, w: int) -> Term {
        term_of(self.num_inputs as int, self.gates@, w)
    }

    /// `w` is a wire of this set and denotes the term it carries.
    pub open spec fn has(&self, w: Wire) -> bool {
        w.index < self.terms@.len() && self.terms@[w.index as int] == w.term@
    }

    /// The set accepts the public input values `env`: every constraint joins
    /// two wires of equal value.
    pub open spec fn accepts(&self, env: Seq<int>) -> bool {
        forall|j: int|
            0 <= j < self.connections@.len() ==> val(self.term((#[trigger] self.connections@[j]).0 as int), env)
                == val(self.term(self.connections@[j].1 as int), env)
    }

    /// Every constraint joins two wires whose recorded terms have equal values.
    pub open spec fn holds(&self, env: Seq<int>) -> bool {
        forall|j: int|
            0 <= j < self.connections@.len() ==> val(self.terms@[(#[trigger] self.connections@[j]).0 as int], env)
                == val(self.terms@[self.connections@[j].1 as int], env)
    }

    /// `self` holds `old`'s inputs and gates, and possibly more gates.
    pub open spec fn extends(&self, old: &ConstraintSet) -> bool {
        &&& self.num_inputs == old.num_inputs
        &&& self.gates@.len() >= old.gates@.len()
        &&& forall|i: int| 0 <= i < old.gates@.len() ==> #[trigger] self.gates@[i] == old.gates@[i]
    }
}

/// Adding gates leaves the terms of the existing wires as they were.
pub proof fn lemma_extends_terms(new: &ConstraintSet, old: &ConstraintSet, w: int)
    requires
        old.wf(),
        new.extends(old),
        0 <= w < old.num_wires(),
    ensures
        new.term(w) == old.term(w),
    decreases w,
{
    let n = old.num_inputs as int;
    if w >= n {
        let g = old.gates@[w - n];
        assert(new.gates@[w - n] == g);
        assert(gate_before(g, w));
        match g {
            Gate::Constant(_) => {},
            Gate::Add(x, y) => {
                lemma_extends_terms(new, old, x as int);
                lemma_extends_terms(new, old, y as int);
            },
            Gate::MulAdd(x, y, z) => {
                lemma_extends_terms(new, old, x as int);
                lemma_extends_terms(new, old, y as int);
                lemma_extends_terms(new, old, z as int);
            },
            Gate::IsEqual(x, y) => {
                lemma_extends_terms(new, old, x as int);
                lemma_extends_terms(new, old, y as int);
            },
            Gate::Not(b) => {
                lemma_extends_terms(new, old, b as int);
            },
            Gate::And(a, b) => {
                lemma_extends_terms(new, old, a as int);
                lemma_extends_terms(new, old, b as int);
            },
            Gate::Or(a, b) => {
                lemma_extends_terms(new, old, a as int);
                lemma_extends_terms(new, old, b as int);
            },
            Gate::Select(b, x, y) => {
                lemma_extends_terms(new, old, b as int);
                lemma_extends_terms(new, old, x as int);
                lemma_extends_terms(new, old, y as int);
            },
        }
    }
}

/// For a well-formed set, acceptance can be read off the recorded terms.
pub proof fn lemma_accepts_holds(cs: &ConstraintSet)
    requires
        cs.wf(),
    ensures
        forall|env: Seq<int>| cs.accepts(env) == cs.holds(env),
{
    reveal(ConstraintSet::terms_match);
    assert forall|env: Seq<int>| cs.accepts(env) == cs.holds(env) by {
        assert forall|j: int| 0 <= j < cs.connections@.len() implies {
            &&& cs.terms@[cs.connections@[j].0 as int] == cs.term(cs.connections@[j].0 as int)
            &&& cs.terms@[cs.connections@[j].1 as int] == cs.term(cs.connections@[j].1 as int)
        } by {
            let c = cs.connections@[j];
        }
    }
}

/// Adding gates changes no constraint.
pub proof fn lemma_grown_holds(new: &ConstraintSet, old: &ConstraintSet)
    requires
        old.wf(),
        new.grown(old),
    ensures
        forall|env: Seq<int>| #[trigger] new.holds(env) == old.holds(env),
{
    assert forall|env: Seq<int>| #[trigger] new.holds(env) == old.holds(env) by {
        assert forall|j: int| 0 <= j < old.connections@.len() implies {
            &&& new.terms@[old.connections@[j].0 as int] == old.terms@[old.connections@[j].0 as int]
            &&& new.terms@[old.connections@[j].1 as int] == old.terms@[old.connections@[j].1 as int]
        } by {
            let c = old.connections@[j];
        }
    }
}

/// A value is 0 or 1.
pub open spec fn is_bit(x: int) -> bool {
    x == 0 || x == 1
}

/// Every term denotes a canonical field element.
pub proof fn lemma_val_canonical(t: Term, env: Seq<int>)
    ensures
        canonical(val(t, env)),
{
}

/// The boolean gates act on 0/1 values as NOT, AND and OR, and selection picks
/// one of two canonical values.
pub proof fn lemma_bit_arith(b: int, c: int, x: int, y: int)
    requires
        is_bit(b),
        is_bit(c),
        canonical(x),
        canonical(y),
    ensures
        fe(1 - b) == 1 - b,
        fe(b * c) == bit(b == 1 && c == 1),
        fe(b + c - b * c) == bit(b == 1 || c == 1),
        fe(b * x + (1 - b) * y) == if b == 1 {
            x
        } else {
            y
        },
{
    vstd::arithmetic::div_mod::lemma_small_mod(0, modulus() as nat);
    vstd::arithmetic::div_mod::lemma_small_mod(1, modulus() as nat);
    vstd::arithmetic::div_mod::lemma_small_mod(x as nat, modulus() as nat);
    vstd::arithmetic::div_mod::lemma_small_mod(y as nat, modulus() as nat);
    if b == 1 {
        assert(b * x + (1 - b) * y == x);
    } else {
        assert(b * x + (1 - b) * y == y) by (nonlinear_arith)
            requires
                b == 0,
        ;
    }
}

impl ConstraintSet {
    /// `self` is `old` with gates added after its own: its constraints are
    /// those of `old`, and every wire of `old` is a wire of `self`.
    pub open spec fn grown(&self, old: &ConstraintSet) -> bool {
        &&& self.wf()
        &&& self.num_inputs == old.num_inputs
        &&& self.connections@ == old.connections@
        &&& self.terms@.len() >= old.terms@.len()
        &&& forall|w: int| 0 <= w < old.terms@.len() ==> #[trigger] self.terms@[w] == old.terms@[w]
    }

    /// An empty constraint set over `num_inputs` public inputs.
    pub fn new(num_inputs: usize) -> (r: ConstraintSet)
        ensures
            r.wf(),
            r.num_inputs == num_inputs,
            r.gates@.len() == 0,
            r.connections@.len() == 0,
    {
        let r = ConstraintSet {
            num_inputs,
            gates: Vec::new(),
            connections: Vec::new(),
            terms: Ghost(Seq::new(num_inputs as nat, |w: int| Term::Input(w as usize))),
        };
        proof {
            reveal(ConstraintSet::terms_match);
        }
        r
    }

    /// The wire of public input `i`.
    pub fn input(&self, i: usize) -> (r: Wire)
        requires
            self.wf(),
            i < self.num_inputs,
        ensures
            self.has(r),
            r.term@ == Term::Input(i),
    {
        proof {
            reveal(ConstraintSet::terms_match);
            assert(self.terms@[i as int] == self.term(i as int));
        }
        Wire { index: i, term: Ghost(Term::Input(i)) }
    }

    fn push_gate(&mut self, g: Gate) -> (r: Wire)
        requires
            old(self).wf(),
            gate_before(g, old(self).num_wires()),
            old(self).num_wires() < usize::MAX,
        ensures
            final(self).grown(old(self)),
            final(self).gates@ == old(self).gates@.push(g),
            final(self).num_wires() == old(self).num_wires() + 1,
            r.index == old(self).num_wires(),
            final(self).has(r),
            r.term@ == gate_term(g, old(self).terms@),
    {
        let index = self.num_inputs + self.gates.len();
        self.gates.push(g);
        proof {
            reveal(ConstraintSet::terms_match);
            assert(self.extends(old(self)));
            self.terms@ = self.terms@.push(self.term(index as int));
            assert forall|w: int| 0 <= w < self.num_wires() implies #[trigger] self.terms@[w] == self.term(w) by {
                if w < old(self).num_wires() {
                    lemma_extends_terms(self, old(self), w);
                    assert(old(self).terms@[w] == old(self).term(w));
                }
            }
            assert(self.gates@[index - self.num_inputs] == g);
            match g {
                Gate::Constant(_) => {},
                Gate::Add(x, y) => {
                    assert(self.terms@[x as int] == self.term(x as int));
                    assert(self.terms@[y as int] == self.term(y as int));
                },
                Gate::MulAdd(x, y, z) => {
                    assert(self.terms@[x as int] == self.term(x as int));
                    assert(self.terms@[y as int] == self.term(y as int));
                    assert(self.terms@[z as int] == self.term(z as int));
                },
                Gate::IsEqual(x, y) => {
                    assert(self.terms@[x as int] == self.term(x as int));
                    assert(self.terms@[y as int] == self.term(y as int));
                },
                Gate::Not(b) => {
                    assert(self.terms@[b as int] == self.term(b as int));
                },
                Gate::And(a, b) => {
                    assert(self.terms@[a as int] == self.term(a as int));
                    assert(self.terms@[b as int] == self.term(b as int));
                },
                Gate::Or(a, b) => {
                    assert(self.terms@[a as int] == self.term(a as int));
                    assert(self.terms@[b as int] == self.term(b as int));
                },
                Gate::Select(b, x, y) => {
                    assert(self.terms@[b as int] == self.term(b as int));
                    assert(self.terms@[x as int] == self.term(x as int));
                    assert(self.terms@[y as int] == self.term(y as int));
                },
            }
        }
        Wire { index, term: Ghost(self.term(index as int)) }
    }

    /// A wire holding the constant `c`.
    pub fn constant(&mut self, c: u64) -> (r: Wire)
        requires
            old(self).wf(),
            old(self).num_wires() < usize::MAX,
        ensures
            final(self).grown(old(self)),
            final(self).num_wires() == old(self).num_wires() + 1,
            final(self).has(r),
            r.term@ == Term::Constant(c),
            forall|env: Seq<int>| #[trigger] val(r.term@, env) == fe(c as int),
    {
        self.push_gate(Gate::Constant(c))
    }

    /// A wire holding `x + y`.
    pub fn add(&mut self, x: Wire, y: Wire) -> (r: Wire)
        requires
            old(self).wf(),
            old(self).num_wires() < usize::MAX,
            old(self).has(x),
            old(self).has(y),
        ensures
            final(self).grown(old(self)),
            final(self).num_wires() == old(self).num_wires() + 1,
            final(self).has(r),
            r.term@ == Term::Add(Box::new(x.term@), Box::new(y.term@)),
            forall|env: Seq<int>|
                #[trigger] val(r.term@, env) == fe(val(x.term@, env) + val(y.term@, env)),
    {
        self.push_gate(Gate::Add(x.index, y.index))
    }

    /// A wire holding `x * y + z`.
    pub fn mul_add(&mut self, x: Wire, y: Wire, z: Wire) -> (r: Wire)
        requires
            old(self).wf(),
            old(self).num_wires() < usize::MAX,
            old(self).has(x),
            old(self).has(y),
            old(self).has(z),
        ensures
            final(self).grown(old(self)),
            final(self).num_wires() == old(self).num_wires() + 1,
            final(self).has(r),
            r.term@ == Term::MulAdd(Box::new(x.term@), Box::new(y.term@), Box::new(z.term@)),
            forall|env: Seq<int>|
                #[trigger] val(r.term@, env) == fe(
                    val(x.term@, env) * val(y.term@, env) + val(z.term@, env),
                ),
    {
        self.push_gate(Gate::MulAdd(x.index, y.index, z.index))
    }

    /// A wire holding 1 where `x` and `y` are equal, else 0.
    pub fn is_equal(&mut self, x: Wire, y: Wire) -> (r: Wire)
        requires
            old(self).wf(),
            old(self).num_wires() < usize::MAX,
            old(self).has(x),
            old(self).has(y),
        ensures
            final(self).grown(old(self)),
            final(self).num_wires() == old(self).num_wires() + 1,
            final(self).has(r),
            r.term@ == Term::IsEqual(Box::new(x.term@), Box::new(y.term@)),
            forall|env: Seq<int>|
                #[trigger] val(r.term@, env) == bit(val(x.term@, env) == val(y.term@, env)),
    {
        self.push_gate(Gate::IsEqual(x.index, y.index))
    }

    /// A wire holding `1 - b`.
    pub fn not(&mut self, b: Wire) -> (r: Wire)
        requires
            old(self).wf(),
            old(self).num_wires() < usize::MAX,
            old(self).has(b),
        ensures
            final(self).grown(old(self)),
            final(self).num_wires() == old(self).num_wires() + 1,
            final(self).has(r),
            r.term@ == Term::Not(Box::new(b.term@)),
            forall|env: Seq<int>|
                is_bit(val(b.term@, env)) ==> #[trigger] val(r.term@, env) == bit(val(b.term@, env) == 0),
    {
        let r = self.push_gate(Gate::Not(b.index));
        proof {
            assert forall|env: Seq<int>|
                is_bit(val(b.term@, env)) implies #[trigger] val(r.term@, env) == bit(val(b.term@, env) == 0) by {
                lemma_bit_arith(val(b.term@, env), 0, 0, 0);
            }
        }
        r
    }

    /// A wire holding `a * b`.
    pub fn and(&mut self, a: Wire, b: Wire) -> (r: Wire)
        requires
            old(self).wf(),
            old(self).num_wires() < usize::MAX,
            old(self).has(a),
            old(self).has(b),
        ensures
            final(self).grown(old(self)),
            final(self).num_wires() == old(self).num_wires() + 1,
            final(self).has(r),
            r.term@ == Term::And(Box::new(a.term@), Box::new(b.term@)),
            forall|env: Seq<int>|
                is_bit(val(a.term@, env)) && is_bit(val(b.term@, env)) ==> #[trigger] val(r.term@, env)
                    == bit(val(a.term@, env) == 1 && val(b.term@, env) == 1),
    {
        let r = self.push_gate(Gate::And(a.index, b.index));
        proof {
            assert forall|env: Seq<int>|
                is_bit(val(a.term@, env)) && is_bit(val(b.term@, env)) implies #[trigger] val(r.term@, env)
                    == bit(val(a.term@, env) == 1 && val(b.term@, env) == 1) by {
                lemma_bit_arith(val(a.term@, env), val(b.term@, env), 0, 0);
            }
        }
        r
    }

    /// A wire holding `a + b - a * b`.
    pub fn or(&mut self, a: Wire, b: Wire) -> (r: Wire)
        requires
            old(self).wf(),
            old(self).num_wires() < usize::MAX,
            old(self).has(a),
            old(self).has(b),
        ensures
            final(self).grown(old(self)),
            final(self).num_wires() == old(self).num_wires() + 1,
            final(self).has(r),
            r.term@ == Term::Or(Box::new(a.term@), Box::new(b.term@)),
            forall|env: Seq<int>|
                is_bit(val(a.term@, env)) && is_bit(val(b.term@, env)) ==> #[trigger] val(r.term@, env)
                    == bit(val(a.term@, env) == 1 || val(b.term@, env) == 1),
    {
        let r = self.push_gate(Gate::Or(a.index, b.index));
        proof {
            assert forall|env: Seq<int>|
                is_bit(val(a.term@, env)) && is_bit(val(b.term@, env)) implies #[trigger] val(r.term@, env)
                    == bit(val(a.term@, env) == 1 || val(b.term@, env) == 1) by {
                lemma_bit_arith(val(a.term@, env), val(b.term@, env), 0, 0);
            }
        }
        r
    }

    /// A wire holding `b * x + (1 - b) * y`.
    pub fn select(&mut self, b: Wire, x: Wire, y: Wire) -> (r: Wire)
        requires
            old(self).wf(),
            old(self).num_wires() < usize::MAX,
            old(self).has(b),
            old(self).has(x),
            old(self).has(y),
        ensures
            final(self).grown(old(self)),
            final(self).num_wires() == old(self).num_wires() + 1,
            final(self).has(r),
            r.term@ == Term::Select(Box::new(b.term@), Box::new(x.term@), Box::new(y.term@)),
            forall|env: Seq<int>|
                is_bit(val(b.term@, env)) ==> #[trigger] val(r.term@, env) == if val(b.term@, env) == 1 {
                    val(x.term@, env)
                } else {
                    val(y.term@, env)
                },
    {
        let r = self.push_gate(Gate::Select(b.index, x.index, y.index));
        proof {
            assert forall|env: Seq<int>|
                is_bit(val(b.term@, env)) implies #[trigger] val(r.term@, env) == if val(b.term@, env) == 1 {
                    val(x.term@, env)
                } else {
                    val(y.term@, env)
                } by {
                lemma_val_canonical(x.term@, env);
                lemma_val_canonical(y.term@, env);
                lemma_bit_arith(val(b.term@, env), 0, val(x.term@, env), val(y.term@, env));
            }
        }
        r
    }

    /// Constrains wires `x` and `y` to be equal.
    pub fn connect(&mut self, x: Wire, y: Wire)
        requires
            old(self).wf(),
            old(self).has(x),
            old(self).has(y),
        ensures
            final(self).wf(),
            final(self).num_inputs == old(self).num_inputs,
            final(self).gates@ == old(self).gates@,
            final(self).terms@ == old(self).terms@,
            final(self).connections@ == old(self).connections@.push((x.index, y.index)),
            forall|env: Seq<int>|
                #[trigger] final(self).holds(env) == (old(self).holds(env) && val(x.term@, env) == val(
                    y.term@,
                    env,
                )),
    {
        self.connections.push((x.index, y.index));
        proof {
            reveal(ConstraintSet::terms_match);
            assert forall|env: Seq<int>|
                #[trigger] self.holds(env) == (old(self).holds(env) && val(x.term@, env) == val(y.term@, env)) by {
                let n = old(self).connections@.len() as int;
                assert(self.connections@[n] == (x.index, y.index));
                if old(self).holds(env) && val(x.term@, env) == val(y.term@, env) {
                    assert forall|j: int| 0 <= j < self.connections@.len() implies val(
                        self.terms@[(#[trigger] self.connections@[j]).0 as int],
                        env,
                    ) == val(self.terms@[self.connections@[j].1 as int], env) by {
                        if j < n {
                            assert(self.connections@[j] == old(self).connections@[j]);
                        }
                    }
                }
                if self.holds(env) {
                    assert forall|j: int| 0 <= j < old(self).connections@.len() implies val(
                        old(self).terms@[(#[trigger] old(self).connections@[j]).0 as int],
                        env,
                    ) == val(old(self).terms@[old(self).connections@[j].1 as int], env) by {
                        assert(self.connections@[j] == old(self).connections@[j]);
                    }
                }
            }
        }
    }
}


/// The value of gate `g` from the values of the earlier wires.
fn gate_value(g: Gate, values: &Vec<u64>, Ghost(terms): Ghost<Seq<Term>>, Ghost(env): Ghost<Seq<int>>) -> (r: u64)
    requires
        gate_before(g, values@.len() as int),
        values@.len() <= terms.len(),
        forall|w: int| 0 <= w < values@.len() ==> #[trigger] values@[w] as int == val(terms[w], env),
    ensures
        r as int == val(gate_term(g, terms), env),
{
    proof {
        assert forall|w: int| 0 <= w < values@.len() implies #[trigger] values@[w] < modulus() by {
            lemma_val_canonical(terms[w], env);
        }
    }
    match g {
        Gate::Constant(c) => reduce(c),
        Gate::Add(x, y) => add_mod(values[x], values[y]),
        Gate::MulAdd(x, y, z) => {
            let p = mul_mod(values[x], values[y]);
            proof {
                vstd::arithmetic::div_mod::lemma_add_mod_noop(values@[x as int] * values@[y as int], values@[z as int] as int, modulus());
                vstd::arithmetic::div_mod::lemma_mod_twice(values@[x as int] * values@[y as int], modulus());
                vstd::arithmetic::div_mod::lemma_small_mod(values@[z as int] as nat, modulus() as nat);
            }
            add_mod(p, values[z])
        },
        Gate::IsEqual(x, y) => if values[x] == values[y] {
            1
        } else {
            0
        },
        Gate::Not(b) => sub_mod(1, values[b]),
        Gate::And(a, b) => mul_mod(values[a], values[b]),
        Gate::Or(a, b) => {
            let ghost va = values@[a as int] as int;
            let ghost vb = values@[b as int] as int;
            let s = add_mod(values[a], values[b]);
            let p = mul_mod(values[a], values[b]);
            proof {
                vstd::arithmetic::div_mod::lemma_sub_mod_noop(va + vb, va * vb, modulus());
            }
            sub_mod(s, p)
        },
        Gate::Select(b, x, y) => {
            let ghost vb = values@[b as int] as int;
            let ghost vx = values@[x as int] as int;
            let ghost vy = values@[y as int] as int;
            let bx = mul_mod(values[b], values[x]);
            let nb = sub_mod(1, values[b]);
            let nby = mul_mod(nb, values[y]);
            proof {
                vstd::arithmetic::div_mod::lemma_mul_mod_noop_left(1 - vb, vy, modulus());
                vstd::arithmetic::div_mod::lemma_add_mod_noop(vb * vx, (1 - vb) * vy, modulus());
            }
            add_mod(bx, nby)
        },
    }
}

impl ConstraintSet {
    /// Evaluates the set on the public input values `inputs`: computes every
    /// wire from the inputs and reports whether all constraints hold.
    pub fn is_satisfied(&self, inputs: &Vec<u64>) -> (r: bool)
        requires
            self.wf(),
            inputs@.len() == self.num_inputs,
        ensures
            r == self.accepts(ints(inputs@)),
    {
        let ghost env = ints(inputs@);
        proof {
            reveal(ConstraintSet::terms_match);
        }
        let mut values: Vec<u64> = Vec::new();
        let mut w: usize = 0;
        while w < self.num_inputs
            invariant
                w <= self.num_inputs,
                self.wf(),
                env == ints(inputs@),
                inputs@.len() == self.num_inputs,
                values@.len() == w,
                forall|v: int| 0 <= v < w ==> #[trigger] values@[v] as int == val(self.terms@[v], env),
            decreases self.num_inputs - w,
        {
            proof {
                reveal(ConstraintSet::terms_match);
                assert(self.terms@[w as int] == self.term(w as int));
            }
            values.push(reduce(inputs[w]));
            w = w + 1;
        }
        let mut i: usize = 0;
        while i < self.gates.len()
            invariant
                i <= self.gates@.len(),
                self.wf(),
                values@.len() == self.num_inputs + i,
                forall|v: int| 0 <= v < values@.len() ==> #[trigger] values@[v] as int == val(self.terms@[v], env),
            decreases self.gates@.len() - i,
        {
            let g = self.gates[i];
            let ghost wi = self.num_inputs + i;
            proof {
                reveal(ConstraintSet::terms_match);
                assert(gate_before(g, wi));
                assert(self.terms@[wi] == self.term(wi));
                match g {
                    Gate::Constant(_) => {},
                    Gate::Add(x, y) => {
                        assert(self.terms@[x as int] == self.term(x as int));
                        assert(self.terms@[y as int] == self.term(y as int));
                    },
                    Gate::MulAdd(x, y, z) => {
                        assert(self.terms@[x as int] == self.term(x as int));
                        assert(self.terms@[y as int] == self.term(y as int));
                        assert(self.terms@[z as int] == self.term(z as int));
                    },
                    Gate::IsEqual(x, y) => {
                        assert(self.terms@[x as int] == self.term(x as int));
                        assert(self.terms@[y as int] == self.term(y as int));
                    },
                    Gate::Not(b) => {
                        assert(self.terms@[b as int] == self.term(b as int));
                    },
                    Gate::And(a, b) => {
                        assert(self.terms@[a as int] == self.term(a as int));
                        assert(self.terms@[b as int] == self.term(b as int));
                    },
                    Gate::Or(a, b) => {
                        assert(self.terms@[a as int] == self.term(a as int));
                        assert(self.terms@[b as int] == self.term(b as int));
                    },
                    Gate::Select(b, x, y) => {
                        assert(self.terms@[b as int] == self.term(b as int));
                        assert(self.terms@[x as int] == self.term(x as int));
                        assert(self.terms@[y as int] == self.term(y as int));
                    },
                }
                assert(self.terms@[wi] == gate_term(g, self.terms@));
            }
            let v = gate_value(g, &values, Ghost(self.terms@), Ghost(env));
            values.push(v);
            i = i + 1;
        }
        let mut ok = true;
        let mut j: usize = 0;
        while j < self.connections.len()
            invariant
                j <= self.connections@.len(),
                self.wf(),
                values@.len() == self.num_wires(),
                forall|v: int| 0 <= v < values@.len() ==> #[trigger] values@[v] as int == val(self.terms@[v], env),
                ok == forall|k: int|
                    0 <= k < j ==> val(self.terms@[(#[trigger] self.connections@[k]).0 as int], env) == val(
                        self.terms@[self.connections@[k].1 as int],
                        env,
                    ),
            decreases self.connections@.len() - j,
        {
            let (x, y) = self.connections[j];
            proof {
                assert(self.connections@[j as int] == (x, y));
                assert(values@[x as int] as int == val(self.terms@[x as int], env));
                assert(values@[y as int] as int == val(self.terms@[y as int], env));
            }
            ok = ok && values[x] == values[y];
            j = j + 1;
        }
        proof {
            lemma_accepts_holds(self);
        }
        ok
    }
}

} // verus!
