//! Cubes: single product terms over a fixed set of variables.

use vstd::prelude::*;

use crate::cubelist::CubeList;

verus! {

/// The state of one variable within one product term.
#[derive(Clone, Copy, PartialEq, Eq, Structural, Debug)]
pub enum Literal {
    /// The variable is present as a positive literal.
    Positive,
    /// The variable is present as a negative literal.
    Negative,
    /// The variable is not present in the product term.
    Dontcare,
}

/// Whether literal `l` is satisfied when its variable is assigned `v`.
pub open spec fn lit_eval(l: Literal, v: bool) -> bool {
    match l {
        Literal::Positive => v,
        Literal::Negative => !v,
        Literal::Dontcare => true,
    }
}

/// Two literal states conflict exactly when they are opposite polarities;
/// everything else is compatible.
pub open spec fn lit_compatible(a: Literal, b: Literal) -> bool {
    a == Literal::Dontcare || b == Literal::Dontcare || a == b
}

/// The conjunction of two compatible literal states: a don't-care defers to
/// the other side, otherwise both sides agree.
pub open spec fn lit_and(a: Literal, b: Literal) -> Literal {
    if a == Literal::Dontcare {
        b
    } else {
        a
    }
}

/// The opposite polarity; a don't-care stays a don't-care.
pub open spec fn lit_opposite(l: Literal) -> Literal {
    match l {
        Literal::Positive => Literal::Negative,
        Literal::Negative => Literal::Positive,
        Literal::Dontcare => Literal::Dontcare,
    }
}

/// The all-don't-care literal sequence of length `n`: the universal product
/// term, true under every assignment.
pub open spec fn dc_seq(n: nat) -> Seq<Literal> {
    Seq::new(n, |i: int| Literal::Dontcare)
}

/// A product term is true under an assignment when every literal is.
pub open spec fn cube_eval(c: Seq<Literal>, a: Seq<bool>) -> bool {
    forall|i: int| 0 <= i < c.len() ==> lit_eval(#[trigger] c[i], a[i])
}

/// Position-wise compatibility of two equal-length cubes.
pub open spec fn cube_compatible(c: Seq<Literal>, d: Seq<Literal>) -> bool {
    forall|i: int| 0 <= i < c.len() ==> lit_compatible(#[trigger] c[i], d[i])
}

/// Position-wise conjunction of two equal-length cubes; meaningful when they
/// are compatible.
pub open spec fn cube_and_seq(c: Seq<Literal>, d: Seq<Literal>) -> Seq<Literal> {
    Seq::new(c.len(), |i: int| lit_and(c[i], d[i]))
}

/// True when the cube carries no literal at all.
pub open spec fn all_dontcare(c: Seq<Literal>) -> bool {
    forall|i: int| 0 <= i < c.len() ==> #[trigger] c[i] == Literal::Dontcare
}

/// The cube over `n` variables whose only literal is `l`, at 1-based
/// variable number `v`; out-of-range positions leave the cube all-don't-care.
pub open spec fn var_cube_seq(n: nat, v: int, l: Literal) -> Seq<Literal> {
    if 1 <= v <= n {
        dc_seq(n).update(v - 1, l)
    } else {
        dc_seq(n)
    }
}

/// The cubes of the complement of `c` drawn from its first `k` positions:
/// one single-literal cube of opposite polarity per non-don't-care literal,
/// in position order.
pub open spec fn complement_cubes(c: Seq<Literal>, k: int) -> Seq<Seq<Literal>>
    decreases k,
{
    if k <= 0 {
        Seq::empty()
    } else {
        let rest = complement_cubes(c, k - 1);
        if c[k - 1] == Literal::Dontcare {
            rest
        } else {
            rest.push(var_cube_seq(c.len(), k, lit_opposite(c[k - 1])))
        }
    }
}

/// The literal state that an integer specification denotes: positive for a
/// positive entry, negative for a negative entry, don't-care for zero.
pub open spec fn lit_of_int(x: i32) -> Literal {
    if x > 0 {
        Literal::Positive
    } else if x < 0 {
        Literal::Negative
    } else {
        Literal::Dontcare
    }
}

/// The cube that a vector of integer specifications denotes.
pub open spec fn lits_of_ints(v: Seq<i32>) -> Seq<Literal> {
    Seq::new(v.len(), |i: int| lit_of_int(v[i]))
}

/// A product term over a fixed number of variables: one literal per
/// variable, addressed by 1-based variable number.
#[derive(Debug)]
pub struct Cube(Vec<Literal>);

impl View for Cube {
    type V = Seq<Literal>;

    closed spec fn view(&self) -> Seq<Literal> {
        self.0@
    }
}

impl Clone for Cube {
    fn clone(&self) -> (r: Self)
        ensures
            r@ == self@,
    {
        Cube(self.0.clone())
    }
}

impl PartialEq for Cube {
    fn eq(&self, other: &Cube) -> (r: bool) {
        if self.0.len() != other.0.len() {
            return false;
        }
        let n = self.0.len();
        let mut i: usize = 0;
        while i < n
            invariant
                n == self.0.len() == other.0.len(),
                0 <= i <= n,
                forall|j: int| 0 <= j < i ==> self.0@[j] == other.0@[j],
            decreases n - i,
        {
            if self.0[i] != other.0[i] {
                return false;
            }
            i += 1;
        }
        proof {
            assert(self.0@ =~= other.0@);
        }
        true
    }
}

impl vstd::std_specs::cmp::PartialEqSpecImpl for Cube {
    open spec fn obeys_eq_spec() -> bool {
        true
    }

    open spec fn eq_spec(&self, other: &Cube) -> bool {
        self@ == other@
    }
}

impl Cube {
    /// Returns a new cube of the given length with every variable in the
    /// don't-care state.
    pub fn new(num_var: usize) -> (r: Self)
        ensures
            r@ == dc_seq(num_var as nat),
    {
        let mut v: Vec<Literal> = Vec::new();
        let mut i: usize = 0;
        while i < num_var
            invariant
                0 <= i <= num_var,
                v@.len() == i,
                forall|j: int| 0 <= j < i ==> v@[j] == Literal::Dontcare,
            decreases num_var - i,
        {
            v.push(Literal::Dontcare);
            i += 1;
        }
        proof {
            assert(v@ =~= dc_seq(num_var as nat));
        }
        Cube(v)
    }

    /// Returns the number of variables of the cube.
    pub fn len(&self) -> (r: usize)
        ensures
            r == self@.len(),
    {
        self.0.len()
    }

    /// Returns the state of 1-based variable `var_num`, or an error when
    /// `var_num` is zero or exceeds the cube's length.
    pub fn get_literal(&self, var_num: usize) -> (r: Result<Literal, String>)
        ensures
            r is Ok <==> 1 <= var_num <= self@.len(),
            r is Ok ==> r->Ok_0 == self@[var_num - 1],
    {
        if var_num <= self.0.len() && var_num != 0 {
            Ok(self.0[var_num - 1])
        } else {
            Err("variable not present".to_owned())
        }
    }

    /// Sets the state of 1-based variable `var_num`; a request for a
    /// variable that is zero or exceeds the cube's length is silently
    /// ignored.
    pub fn set_literal(&mut self, var_num: usize, value: Literal)
        ensures
            1 <= var_num <= old(self)@.len() ==> final(self)@ == old(self)@.update(
                var_num - 1,
                value,
            ),
            !(1 <= var_num <= old(self)@.len()) ==> final(self)@ == old(self)@,
    {
        if var_num <= self.0.len() && var_num != 0 {
            self.0[var_num - 1] = value;
        }
    }

    /// Returns the cube over `num_var` variables carrying a single literal
    /// of the requested polarity at 1-based variable `var_num`.
    pub fn get_var_cube(num_var: usize, var_num: usize, positive: bool) -> (r: Self)
        ensures
            r@ == var_cube_seq(
                num_var as nat,
                var_num as int,
                if positive {
                    Literal::Positive
                } else {
                    Literal::Negative
                },
            ),
    {
        let mut cube = Cube::new(num_var);
        if positive {
            cube.set_literal(var_num, Literal::Positive);
        } else {
            cube.set_literal(var_num, Literal::Negative);
        }
        cube
    }

    /// Builds a cube from a vector of integer specifications: a positive
    /// entry yields a positive literal, a negative entry a negative literal,
    /// and zero a don't-care, at the corresponding 1-based position.
    pub fn from(vector: Vec<i32>) -> (r: Self)
        ensures
            r@ == lits_of_ints(vector@),
    {
        Cube::from_ints(&vector)
    }

    /// Builds a cube from a borrowed vector of integer specifications, with
    /// the same mapping as `from`.
    pub fn from_ints(vector: &Vec<i32>) -> (r: Self)
        ensures
            r@ == lits_of_ints(vector@),
    {
        let n = vector.len();
        let mut v: Vec<Literal> = Vec::new();
        let mut i: usize = 0;
        while i < n
            invariant
                n == vector@.len(),
                0 <= i <= n,
                v@.len() == i,
                forall|j: int| 0 <= j < i ==> v@[j] == lit_of_int(vector@[j]),
            decreases n - i,
        {
            if vector[i] > 0 {
                v.push(Literal::Positive);
            } else if vector[i] < 0 {
                v.push(Literal::Negative);
            } else {
                v.push(Literal::Dontcare);
            }
            i += 1;
        }
        proof {
            assert(v@ =~= lits_of_ints(vector@));
        }
        Cube(v)
    }

    /// Returns `self` AND `cube_x`: the position-wise conjunction, or no
    /// result when some variable appears with opposite polarities on the two
    /// sides, which makes the conjunction the zero function.
    pub fn and(&self, cube_x: &Cube) -> (r: Option<Cube>)
        requires
            self@.len() == cube_x@.len(),
        ensures
            r is Some <==> cube_compatible(self@, cube_x@),
            r is Some ==> r->Some_0@ == cube_and_seq(self@, cube_x@),
    {
        let n = self.0.len();
        let mut out: Vec<Literal> = Vec::new();
        let mut i: usize = 0;
        while i < n
            invariant
                n == self@.len() == cube_x@.len(),
                0 <= i <= n,
                out@.len() == i,
                forall|j: int| 0 <= j < i ==> lit_compatible(#[trigger] self@[j], cube_x@[j]),
                forall|j: int| 0 <= j < i ==> out@[j] == lit_and(self@[j], cube_x@[j]),
            decreases n - i,
        {
            let a = self.0[i];
            let b = cube_x.0[i];
            if a != Literal::Dontcare && b != Literal::Dontcare && a != b {
                proof {
                    assert(!lit_compatible(self@[i as int], cube_x@[i as int]));
                }
                return None;
            }
            if a == Literal::Dontcare {
                out.push(b);
            } else {
                out.push(a);
            }
            i += 1;
        }
        proof {
            assert(out@ =~= cube_and_seq(self@, cube_x@));
        }
        Some(Cube(out))
    }

    /// Returns the complement of the cube as a family of cubes: one
    /// single-literal cube of opposite polarity per literal of the cube, by
    /// De Morgan's law; the all-don't-care cube complements to the empty
    /// family.
    pub fn complement(&self) -> (r: CubeList)
        ensures
            r.num_vars_spec() == self@.len(),
            r@ == complement_cubes(self@, self@.len() as int),
    {
        let n = self.0.len();
        let mut cubelist = CubeList::new(n);
        let mut i: usize = 0;
        while i < n
            invariant
                n == self@.len(),
                0 <= i <= n,
                cubelist.num_vars_spec() == n,
                cubelist@ == complement_cubes(self@, i as int),
            decreases n - i,
        {
            if self.0[i] == Literal::Positive {
                let c = Cube::get_var_cube(n, i + 1, false);
                proof {
                    assert(c@.len() == n) by {
                        assert(c@ == dc_seq(n as nat).update(i as int, Literal::Negative));
                    }
                }
                cubelist.add_cube(c);
            } else if self.0[i] == Literal::Negative {
                let c = Cube::get_var_cube(n, i + 1, true);
                proof {
                    assert(c@.len() == n) by {
                        assert(c@ == dc_seq(n as nat).update(i as int, Literal::Positive));
                    }
                }
                cubelist.add_cube(c);
            }
            i += 1;
        }
        cubelist
    }
}

} // verus!
