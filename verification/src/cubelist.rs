//! Cube families: Boolean functions in sum-of-products form.

use vstd::prelude::*;

use crate::cube::Cube;
use crate::cube::Literal;
use crate::cube::all_dontcare;
use crate::cube::cube_and_seq;
use crate::cube::cube_compatible;
use crate::cube::cube_eval;
use crate::cube::dc_seq;
use crate::cube::lits_of_ints;

verus! {

/// Every cube of the family has exactly `n` variables.
pub open spec fn fam_wf(f: Seq<Seq<Literal>>, n: nat) -> bool {
    forall|i: int| 0 <= i < f.len() ==> (#[trigger] f[i]).len() == n
}

/// A family — a sum of product terms — is true under an assignment when
/// some cube of it is.
pub open spec fn fam_eval(f: Seq<Seq<Literal>>, a: Seq<bool>) -> bool {
    exists|i: int| 0 <= i < f.len() && cube_eval(#[trigger] f[i], a)
}

/// A family over `n` variables is a tautology when it is true under every
/// assignment of its variables.
pub open spec fn is_taut(f: Seq<Seq<Literal>>, n: nat) -> bool {
    forall|a: Seq<bool>| a.len() == n ==> fam_eval(f, a)
}

/// The union of `a` with the first `k` cubes of `b`: cubes of `b` are
/// appended in order, each only when not already present.
pub open spec fn fam_or(a: Seq<Seq<Literal>>, b: Seq<Seq<Literal>>, k: int) -> Seq<Seq<Literal>>
    decreases k,
{
    if k <= 0 {
        a
    } else {
        let p = fam_or(a, b, k - 1);
        if p.contains(b[k - 1]) {
            p
        } else {
            p.push(b[k - 1])
        }
    }
}

/// One row of the cube-family product: `acc` extended with the conjunction
/// of `c` against each of the first `k` cubes of `b`, skipping conflicting
/// pairs and exact duplicates.
pub open spec fn fam_and_row(
    acc: Seq<Seq<Literal>>,
    c: Seq<Literal>,
    b: Seq<Seq<Literal>>,
    k: int,
) -> Seq<Seq<Literal>>
    decreases k,
{
    if k <= 0 {
        acc
    } else {
        let p = fam_and_row(acc, c, b, k - 1);
        if cube_compatible(c, b[k - 1]) && !p.contains(cube_and_seq(c, b[k - 1])) {
            p.push(cube_and_seq(c, b[k - 1]))
        } else {
            p
        }
    }
}

/// The cube-family product of the first `k` cubes of `a` against all of
/// `b`, pairs taken in row-major order with exact-duplicate suppression.
pub open spec fn fam_and(a: Seq<Seq<Literal>>, b: Seq<Seq<Literal>>, k: int) -> Seq<Seq<Literal>>
    decreases k,
{
    if k <= 0 {
        Seq::empty()
    } else {
        fam_and_row(fam_and(a, b, k - 1), a[k - 1], b, b.len() as int)
    }
}

/// The positive Shannon cofactor of the first `k` cubes of `f` with respect
/// to 1-based variable `v`: cubes positive in `v` contribute with that
/// literal reset to don't-care, don't-care cubes contribute unchanged, and
/// cubes negative in `v` are dropped.
pub open spec fn pos_cofactor(f: Seq<Seq<Literal>>, v: int, k: int) -> Seq<Seq<Literal>>
    decreases k,
{
    if k <= 0 {
        Seq::empty()
    } else {
        let p = pos_cofactor(f, v, k - 1);
        let c = f[k - 1];
        if c[v - 1] == Literal::Positive {
            p.push(c.update(v - 1, Literal::Dontcare))
        } else if c[v - 1] == Literal::Negative {
            p
        } else {
            p.push(c)
        }
    }
}

/// The negative Shannon cofactor, the mirror image of `pos_cofactor`.
pub open spec fn neg_cofactor(f: Seq<Seq<Literal>>, v: int, k: int) -> Seq<Seq<Literal>>
    decreases k,
{
    if k <= 0 {
        Seq::empty()
    } else {
        let p = neg_cofactor(f, v, k - 1);
        let c = f[k - 1];
        if c[v - 1] == Literal::Negative {
            p.push(c.update(v - 1, Literal::Dontcare))
        } else if c[v - 1] == Literal::Positive {
            p
        } else {
            p.push(c)
        }
    }
}

/// How many of the first `k` cubes of `f` carry literal state `l` at
/// 1-based variable `v`.
pub open spec fn count_lit(f: Seq<Seq<Literal>>, v: int, l: Literal, k: int) -> nat
    decreases k,
{
    if k <= 0 {
        0
    } else {
        count_lit(f, v, l, k - 1) + if f[k - 1][v - 1] == l {
            1nat
        } else {
            0
        }
    }
}

/// How often 1-based variable `v` occurs with literal state `l` across the
/// whole family.
pub open spec fn occ(f: Seq<Seq<Literal>>, v: int, l: Literal) -> nat {
    count_lit(f, v, l, f.len() as int)
}

/// Variable `v` is binate in `f` when it occurs in both polarities.
pub open spec fn binate(f: Seq<Seq<Literal>>, v: int) -> bool {
    occ(f, v, Literal::Positive) > 0 && occ(f, v, Literal::Negative) > 0
}

/// A family is unate when no variable occurs in both polarities.
pub open spec fn fam_unate(f: Seq<Seq<Literal>>, n: nat) -> bool {
    forall|v: int| 1 <= v <= n ==> !binate(f, v)
}

/// The combined occurrence count of variable `v`, both polarities together.
pub open spec fn combined(f: Seq<Seq<Literal>>, v: int) -> nat {
    occ(f, v, Literal::Positive) + occ(f, v, Literal::Negative)
}

/// How unbalanced the two polarity counts of variable `v` are.
pub open spec fn balance(f: Seq<Seq<Literal>>, v: int) -> nat {
    let p = occ(f, v, Literal::Positive);
    let q = occ(f, v, Literal::Negative);
    if p >= q {
        (p - q) as nat
    } else {
        (q - p) as nat
    }
}

/// The splitting heuristic prefers variable `a` over variable `b` when `a`
/// has the larger combined occurrence count, breaking ties first by the more
/// balanced polarity counts and then by the lower variable number.
pub open spec fn prefers(f: Seq<Seq<Literal>>, a: int, b: int) -> bool {
    ||| combined(f, a) > combined(f, b)
    ||| (combined(f, a) == combined(f, b) && balance(f, a) < balance(f, b))
    ||| (combined(f, a) == combined(f, b) && balance(f, a) == balance(f, b) && a <= b)
}

/// How many literals the first `k` positions of a cube carry.
pub open spec fn cube_weight(c: Seq<Literal>, k: int) -> nat
    decreases k,
{
    if k <= 0 {
        0
    } else {
        cube_weight(c, k - 1) + if c[k - 1] == Literal::Dontcare {
            0
        } else {
            1nat
        }
    }
}

/// The total literal count of the first `k` cubes of a family: the measure
/// that every Shannon cofactor of an occurring variable strictly shrinks.
pub open spec fn fam_weight(f: Seq<Seq<Literal>>, k: int) -> nat
    decreases k,
{
    if k <= 0 {
        0
    } else {
        fam_weight(f, k - 1) + cube_weight(f[k - 1], f[k - 1].len() as int)
    }
}

/// Within the first `k` cubes, each cube carries at most one of the two
/// polarities at variable `v`, so the two counts together never exceed `k`.
pub proof fn lemma_counts_disjoint(f: Seq<Seq<Literal>>, v: int, k: int)
    ensures
        count_lit(f, v, Literal::Positive, k) + count_lit(f, v, Literal::Negative, k) <= (if k <= 0 {
            0int
        } else {
            k
        }),
    decreases k,
{
    if k > 0 {
        lemma_counts_disjoint(f, v, k - 1);
    }
}

/// A literal state is counted among the first `k` cubes exactly when some
/// of those cubes carries it.
pub proof fn lemma_count_pos_iff_exists(f: Seq<Seq<Literal>>, v: int, l: Literal, k: int)
    ensures
        count_lit(f, v, l, k) > 0 <==> exists|i: int| 0 <= i < k && (#[trigger] f[i])[v - 1] == l,
    decreases k,
{
    if k > 0 {
        lemma_count_pos_iff_exists(f, v, l, k - 1);
        if f[k - 1][v - 1] == l {
            assert(0 <= k - 1 < k && f[k - 1][v - 1] == l);
        }
    }
}

/// Which variables the splitting heuristic chooses among: every occurring
/// variable while the family is unate, and the binate variables otherwise.
spec fn split_candidate(f: Seq<Seq<Literal>>, unate: bool, u: int) -> bool {
    if unate {
        combined(f, u) > 0
    } else {
        binate(f, u)
    }
}

/// A Boolean function held as an ordered family of cubes that all share one
/// variable count; the family is the logical sum of its cubes. The variable
/// count is kept even while the family is empty, since an empty family is
/// the zero function over that many variables.
#[derive(Debug)]
pub struct CubeList {
    cubes: Vec<Cube>,
    num_var: usize,
}

impl View for CubeList {
    type V = Seq<Seq<Literal>>;

    closed spec fn view(&self) -> Seq<Seq<Literal>> {
        self.cubes@.map_values(|c: Cube| c@)
    }
}

impl Clone for CubeList {
    fn clone(&self) -> (r: Self)
        ensures
            r@ == self@,
            r.num_vars_spec() == self.num_vars_spec(),
    {
        let mut cubes: Vec<Cube> = Vec::new();
        let n = self.cubes.len();
        let mut i: usize = 0;
        while i < n
            invariant
                n == self.cubes@.len(),
                0 <= i <= n,
                cubes@.len() == i,
                forall|j: int| 0 <= j < i ==> cubes@[j]@ == self.cubes@[j]@,
            decreases n - i,
        {
            cubes.push(self.cubes[i].clone());
            i += 1;
        }
        let r = CubeList { cubes, num_var: self.num_var };
        proof {
            assert(r@ =~= self@);
        }
        r
    }
}

impl CubeList {
    /// The number of variables of the Boolean function, as stated at
    /// construction.
    pub closed spec fn num_vars_spec(&self) -> nat {
        self.num_var as nat
    }

    /// Returns the number of cubes, that is product terms, of the family.
    pub fn len(&self) -> (r: usize)
        ensures
            r == self@.len(),
    {
        self.cubes.len()
    }

    /// Returns the empty family — the zero function — over `num_var`
    /// variables.
    pub fn new(num_var: usize) -> (r: Self)
        ensures
            r@ == Seq::<Seq<Literal>>::empty(),
            r.num_vars_spec() == num_var,
    {
        let r = CubeList { cubes: Vec::new(), num_var };
        proof {
            assert(r@ =~= Seq::<Seq<Literal>>::empty());
        }
        r
    }

    /// Appends a cube to the family unconditionally: no duplicate check is
    /// made. The cube must have the family's variable count.
    pub fn add_cube(&mut self, cube_x: Cube)
        requires
            cube_x@.len() == old(self).num_vars_spec(),
        ensures
            final(self)@ == old(self)@.push(cube_x@),
            final(self).num_vars_spec() == old(self).num_vars_spec(),
    {
        let ghost pre = self@;
        let ghost c = cube_x@;
        self.cubes.push(cube_x);
        proof {
            assert(self@ =~= pre.push(c));
        }
    }

    /// Tests whether the family holds a cube equal to `cube_x`, by exact
    /// literal-sequence comparison.
    pub fn contains_cube(&self, cube_x: &Cube) -> (r: bool)
        ensures
            r == self@.contains(cube_x@),
    {
        let n = self.cubes.len();
        let mut i: usize = 0;
        while i < n
            invariant
                n == self.cubes@.len(),
                0 <= i <= n,
                forall|j: int| 0 <= j < i ==> self@[j] != cube_x@,
            decreases n - i,
        {
            if &self.cubes[i] == cube_x {
                proof {
                    assert(self@[i as int] == cube_x@);
                }
                return true;
            }
            i += 1;
        }
        false
    }

    /// Builds a family from a batch of integer-vector cube specifications,
    /// one vector per cube; the vectors must agree in length, which becomes
    /// the family's variable count.
    pub fn from(vector: Vec<Vec<i32>>) -> (r: Self)
        requires
            vector@.len() >= 1,
            forall|i: int|
                0 <= i < vector@.len() ==> (#[trigger] vector@[i])@.len() == vector@[0]@.len(),
        ensures
            r.num_vars_spec() == vector@[0]@.len(),
            r@.len() == vector@.len(),
            forall|i: int| 0 <= i < vector@.len() ==> r@[i] == lits_of_ints((#[trigger] vector@[i])@),
            fam_wf(r@, r.num_vars_spec()),
    {
        let num_var = vector[0].len();
        let mut cubelist = CubeList::new(num_var);
        let n = vector.len();
        let mut i: usize = 0;
        while i < n
            invariant
                n == vector@.len(),
                0 <= i <= n,
                num_var == vector@[0]@.len(),
                forall|k: int|
                    0 <= k < vector@.len() ==> (#[trigger] vector@[k])@.len() == vector@[0]@.len(),
                cubelist.num_vars_spec() == num_var,
                cubelist@.len() == i,
                forall|j: int|
                    0 <= j < i ==> cubelist@[j] == lits_of_ints((#[trigger] vector@[j])@),
            decreases n - i,
        {
            let cube = Cube::from_ints(&vector[i]);
            cubelist.add_cube(cube);
            i += 1;
        }
        proof {
            assert forall|i: int| 0 <= i < cubelist@.len() implies (#[trigger] cubelist@[i]).len()
                == cubelist.num_vars_spec() by {
                assert(cubelist@[i] == lits_of_ints(vector@[i]@));
                assert(vector@[i]@.len() == vector@[0]@.len());
            }
        }
        cubelist
    }

    /// Returns the logical OR of the two Boolean functions: a copy of
    /// `self`, extended by every cube of `cubelist_x` not already present.
    /// Only exact duplicates are suppressed; no cover minimization is
    /// attempted.
    pub fn or(&self, cubelist_x: &CubeList) -> (r: CubeList)
        requires
            fam_wf(self@, self.num_vars_spec()),
            fam_wf(cubelist_x@, cubelist_x.num_vars_spec()),
            self.num_vars_spec() == cubelist_x.num_vars_spec(),
        ensures
            r@ == fam_or(self@, cubelist_x@, cubelist_x@.len() as int),
            r.num_vars_spec() == self.num_vars_spec(),
            fam_wf(r@, r.num_vars_spec()),
    {
        let mut result = self.clone();
        let n = cubelist_x.cubes.len();
        let mut i: usize = 0;
        while i < n
            invariant
                n == cubelist_x@.len(),
                0 <= i <= n,
                result@ == fam_or(self@, cubelist_x@, i as int),
                result.num_vars_spec() == self.num_vars_spec(),
                fam_wf(cubelist_x@, cubelist_x.num_vars_spec()),
                self.num_vars_spec() == cubelist_x.num_vars_spec(),
                fam_wf(result@, result.num_vars_spec()),
            decreases n - i,
        {
            let cube = &cubelist_x.cubes[i];
            proof {
                assert(cubelist_x@[i as int] == cube@);
            }
            if !result.contains_cube(cube) {
                result.add_cube(cube.clone());
            }
            i += 1;
        }
        result
    }

    /// Returns the logical AND of the two Boolean functions: the Cartesian
    /// product of their cubes through `Cube::and`, keeping every pairwise
    /// conjunction that exists and is not already in the accumulated result.
    pub fn and(&self, cubelist_x: &CubeList) -> (r: CubeList)
        requires
            fam_wf(self@, self.num_vars_spec()),
            fam_wf(cubelist_x@, cubelist_x.num_vars_spec()),
            self.num_vars_spec() == cubelist_x.num_vars_spec(),
        ensures
            r@ == fam_and(self@, cubelist_x@, self@.len() as int),
            r.num_vars_spec() == self.num_vars_spec(),
            fam_wf(r@, r.num_vars_spec()),
    {
        let mut result = CubeList::new(self.num_var);
        let n = self.cubes.len();
        let m = cubelist_x.cubes.len();
        let mut i: usize = 0;
        while i < n
            invariant
                n == self@.len(),
                m == cubelist_x@.len(),
                0 <= i <= n,
                result@ == fam_and(self@, cubelist_x@, i as int),
                result.num_vars_spec() == self.num_vars_spec(),
                fam_wf(self@, self.num_vars_spec()),
                fam_wf(cubelist_x@, cubelist_x.num_vars_spec()),
                self.num_vars_spec() == cubelist_x.num_vars_spec(),
                fam_wf(result@, result.num_vars_spec()),
            decreases n - i,
        {
            let ghost base = result@;
            let mut j: usize = 0;
            while j < m
                invariant
                    n == self@.len(),
                    m == cubelist_x@.len(),
                    0 <= i < n,
                    0 <= j <= m,
                    base == fam_and(self@, cubelist_x@, i as int),
                    result@ == fam_and_row(base, self@[i as int], cubelist_x@, j as int),
                    result.num_vars_spec() == self.num_vars_spec(),
                    fam_wf(self@, self.num_vars_spec()),
                    fam_wf(cubelist_x@, cubelist_x.num_vars_spec()),
                    self.num_vars_spec() == cubelist_x.num_vars_spec(),
                    fam_wf(result@, result.num_vars_spec()),
                decreases m - j,
            {
                proof {
                    assert(self@[i as int] == self.cubes@[i as int]@);
                    assert(cubelist_x@[j as int] == cubelist_x.cubes@[j as int]@);
                }
                if let Some(new_cube) = self.cubes[i].and(&cubelist_x.cubes[j]) {
                    if !result.contains_cube(&new_cube) {
                        result.add_cube(new_cube);
                    }
                }
                j += 1;
            }
            i += 1;
        }
        result
    }

    /// Returns the Shannon expansion of the function with respect to
    /// 1-based variable `var_num`, as the pair of positive and negative
    /// cofactors. A cube positive in the variable joins the positive
    /// cofactor with that literal reset to don't-care, a negative cube joins
    /// the negative cofactor analogously, and a don't-care cube joins both
    /// unchanged.
    pub fn cofactor(&self, var_num: usize) -> (r: (CubeList, CubeList))
        requires
            fam_wf(self@, self.num_vars_spec()),
            1 <= var_num <= self.num_vars_spec(),
        ensures
            r.0@ == pos_cofactor(self@, var_num as int, self@.len() as int),
            r.1@ == neg_cofactor(self@, var_num as int, self@.len() as int),
            r.0.num_vars_spec() == self.num_vars_spec(),
            r.1.num_vars_spec() == self.num_vars_spec(),
            fam_wf(r.0@, self.num_vars_spec()),
            fam_wf(r.1@, self.num_vars_spec()),
    {
        let mut pos_cof = CubeList::new(self.num_var);
        let mut neg_cof = CubeList::new(self.num_var);
        let n = self.cubes.len();
        let mut i: usize = 0;
        while i < n
            invariant
                n == self@.len(),
                0 <= i <= n,
                fam_wf(self@, self.num_vars_spec()),
                1 <= var_num <= self.num_vars_spec(),
                pos_cof@ == pos_cofactor(self@, var_num as int, i as int),
                neg_cof@ == neg_cofactor(self@, var_num as int, i as int),
                pos_cof.num_vars_spec() == self.num_vars_spec(),
                neg_cof.num_vars_spec() == self.num_vars_spec(),
                fam_wf(pos_cof@, self.num_vars_spec()),
                fam_wf(neg_cof@, self.num_vars_spec()),
            decreases n - i,
        {
            let cube = &self.cubes[i];
            proof {
                assert(self@[i as int] == cube@);
            }
            let lit = cube.get_literal(var_num).unwrap();
            if lit == Literal::Positive {
                let mut new_cube = cube.clone();
                new_cube.set_literal(var_num, Literal::Dontcare);
                pos_cof.add_cube(new_cube);
            } else if lit == Literal::Negative {
                let mut new_cube = cube.clone();
                new_cube.set_literal(var_num, Literal::Dontcare);
                neg_cof.add_cube(new_cube);
            } else {
                pos_cof.add_cube(cube.clone());
                neg_cof.add_cube(cube.clone());
            }
            i += 1;
        }
        (pos_cof, neg_cof)
    }

    /// Tests whether the function is a tautology, by the unate recursive
    /// paradigm: a unate family is a tautology exactly when it holds the
    /// all-don't-care cube, and any other family is one exactly when both
    /// Shannon cofactors on the selected splitting variable are.
    pub fn is_tautology(&self) -> (r: bool)
        requires
            fam_wf(self@, self.num_vars_spec()),
        ensures
            r == is_taut(self@, self.num_vars_spec()),
        decreases fam_weight(self@, self@.len() as int),
    {
        let ghost n = self.num_vars_spec();
        if self.is_unate() {
            let r = self.contains_cube(&Cube::new(self.num_var));
            proof {
                if r {
                    crate::semantics::lemma_contains_all_dc_taut(self@, n);
                } else {
                    crate::semantics::lemma_unate_not_taut(self@, n);
                }
            }
            r
        } else {
            let var_num = self.get_most_unate_var();
            let ghost v = var_num as int;
            let ghost len = self@.len() as int;
            proof {
                lemma_count_pos_iff_exists(self@, v, Literal::Positive, len);
                let i = choose|i: int|
                    0 <= i < len && (#[trigger] self@[i])[v - 1] == Literal::Positive;
                assert((#[trigger] self@[i])[v - 1] != Literal::Dontcare);
                crate::semantics::lemma_pos_cofactor_weight(self@, v, len, n);
                crate::semantics::lemma_neg_cofactor_weight(self@, v, len, n);
                crate::semantics::lemma_shannon_taut(self@, n, v);
            }
            let (pos_cubelist, neg_cubelist) = self.cofactor(var_num);
            let rp = pos_cubelist.is_tautology();
            let rq = neg_cubelist.is_tautology();
            rp && rq
        }
    }

    /// Returns the complement of the Boolean function, by recursive Shannon
    /// decomposition: the empty function complements to the universal cube,
    /// a family holding the universal cube complements to the empty family,
    /// a single cube complements by De Morgan's law, and otherwise the
    /// complement is rebuilt from the complemented cofactors on the
    /// selected splitting variable.
    pub fn complement(&self) -> (r: CubeList)
        requires
            fam_wf(self@, self.num_vars_spec()),
        ensures
            r.num_vars_spec() == self.num_vars_spec(),
            fam_wf(r@, r.num_vars_spec()),
            forall|a: Seq<bool>|
                a.len() == self.num_vars_spec() ==> #[trigger] fam_eval(r@, a) == !fam_eval(
                    self@,
                    a,
                ),
        decreases fam_weight(self@, self@.len() as int),
    {
        let ghost n = self.num_vars_spec();
        if self.cubes.len() == 0 {
            let mut cubelist = CubeList::new(self.num_var);
            cubelist.add_cube(Cube::new(self.num_var));
            proof {
                assert forall|a: Seq<bool>| a.len() == n implies #[trigger] fam_eval(cubelist@, a)
                    == !fam_eval(self@, a) by {
                    crate::semantics::lemma_fam_eval_push(
                        Seq::<Seq<Literal>>::empty(),
                        dc_seq(n),
                        a,
                    );
                    crate::semantics::lemma_dc_cube_eval(n, a);
                    assert(!fam_eval(self@, a));
                }
            }
            cubelist
        } else if self.contains_cube(&Cube::new(self.num_var)) {
            let cubelist = CubeList::new(self.num_var);
            proof {
                crate::semantics::lemma_contains_all_dc_taut(self@, n);
                assert forall|a: Seq<bool>| a.len() == n implies #[trigger] fam_eval(cubelist@, a)
                    == !fam_eval(self@, a) by {
                    assert(fam_eval(self@, a));
                    assert(!fam_eval(cubelist@, a));
                }
            }
            cubelist
        } else if self.cubes.len() == 1 {
            let cube = &self.cubes[0];
            proof {
                assert(self@[0] == cube@);
                assert(cube@.len() == n);
            }
            let result = cube.complement();
            proof {
                crate::semantics::lemma_complement_cubes_shape(cube@, cube@.len() as int);
                assert forall|a: Seq<bool>| a.len() == n implies #[trigger] fam_eval(result@, a)
                    == !fam_eval(self@, a) by {
                    crate::semantics::lemma_cube_complement_eval_full(cube@, a);
                    crate::semantics::lemma_fam_eval_single(self@, a);
                }
            }
            result
        } else {
            proof {
                if fam_unate(self@, n) {
                    assert(self@[0].len() == n);
                    if all_dontcare(self@[0]) {
                        assert(self@[0] =~= dc_seq(n));
                        assert(self@.contains(dc_seq(n)));
                        assert(false);
                    }
                    let j = choose|j: int|
                        0 <= j < self@[0].len() && self@[0][j] != Literal::Dontcare;
                    if self@[0][j] == Literal::Positive {
                        lemma_count_pos_iff_exists(
                            self@,
                            j + 1,
                            Literal::Positive,
                            self@.len() as int,
                        );
                        assert((#[trigger] self@[0])[j + 1 - 1] == Literal::Positive);
                        assert(combined(self@, j + 1) > 0);
                    } else {
                        lemma_count_pos_iff_exists(
                            self@,
                            j + 1,
                            Literal::Negative,
                            self@.len() as int,
                        );
                        assert((#[trigger] self@[0])[j + 1 - 1] == Literal::Negative);
                        assert(combined(self@, j + 1) > 0);
                    }
                    assert(1 <= j + 1 <= n && combined(self@, j + 1) > 0);
                }
            }
            let var_num = self.get_most_unate_var();
            let ghost v = var_num as int;
            let ghost len = self@.len() as int;
            proof {
                assert(combined(self@, v) > 0);
                if count_lit(self@, v, Literal::Positive, len) > 0 {
                    lemma_count_pos_iff_exists(self@, v, Literal::Positive, len);
                    let i = choose|i: int|
                        0 <= i < len && (#[trigger] self@[i])[v - 1] == Literal::Positive;
                    assert((#[trigger] self@[i])[v - 1] != Literal::Dontcare);
                } else {
                    lemma_count_pos_iff_exists(self@, v, Literal::Negative, len);
                    let i = choose|i: int|
                        0 <= i < len && (#[trigger] self@[i])[v - 1] == Literal::Negative;
                    assert((#[trigger] self@[i])[v - 1] != Literal::Dontcare);
                }
                crate::semantics::lemma_pos_cofactor_weight(self@, v, len, n);
                crate::semantics::lemma_neg_cofactor_weight(self@, v, len, n);
            }
            let (pos_cubelist, neg_cubelist) = self.cofactor(var_num);
            let mut cubelist_x_pos = CubeList::new(self.num_var);
            let vc_pos = Cube::get_var_cube(self.num_var, var_num, true);
            proof {
                assert(vc_pos@ == dc_seq(n).update(v - 1, Literal::Positive));
                assert(vc_pos@.len() == n);
            }
            cubelist_x_pos.add_cube(vc_pos);
            let mut cubelist_x_neg = CubeList::new(self.num_var);
            let vc_neg = Cube::get_var_cube(self.num_var, var_num, false);
            proof {
                assert(vc_neg@ == dc_seq(n).update(v - 1, Literal::Negative));
                assert(vc_neg@.len() == n);
            }
            cubelist_x_neg.add_cube(vc_neg);
            let comp_pos = pos_cubelist.complement();
            let comp_neg = neg_cubelist.complement();
            let left = cubelist_x_pos.and(&comp_pos);
            let right = cubelist_x_neg.and(&comp_neg);
            let result = left.or(&right);
            proof {
                assert forall|a: Seq<bool>| a.len() == n implies #[trigger] fam_eval(result@, a)
                    == !fam_eval(self@, a) by {
                    crate::semantics::lemma_fam_or_eval(left@, right@, right@.len() as int, a);
                    assert((exists|i: int|
                        0 <= i < right@.len() && cube_eval(#[trigger] right@[i], a)) == fam_eval(
                        right@,
                        a,
                    ));
                    crate::semantics::lemma_fam_and_eval(cubelist_x_pos@, comp_pos@, n, a);
                    crate::semantics::lemma_fam_and_eval(cubelist_x_neg@, comp_neg@, n, a);
                    crate::semantics::lemma_fam_eval_single(cubelist_x_pos@, a);
                    crate::semantics::lemma_fam_eval_single(cubelist_x_neg@, a);
                    crate::semantics::lemma_var_cube_eval(n, v, Literal::Positive, a);
                    crate::semantics::lemma_var_cube_eval(n, v, Literal::Negative, a);
                    assert(fam_eval(comp_pos@, a) == !fam_eval(pos_cubelist@, a));
                    assert(fam_eval(comp_neg@, a) == !fam_eval(neg_cubelist@, a));
                    crate::semantics::lemma_cofactor_eval(self@, v, n, a);
                }
            }
            result
        }
    }

    /// Returns the number of variables of the Boolean function.
    pub fn num_vars(&self) -> (r: usize)
        ensures
            r == self.num_vars_spec(),
    {
        self.num_var
    }

    /// Returns the cube at the given position of the family.
    pub fn get_cube(&self, index: usize) -> (r: &Cube)
        requires
            index < self@.len(),
        ensures
            r@ == self@[index as int],
    {
        &self.cubes[index]
    }

    /// Counts the cubes that carry literal state `lit` at 1-based variable
    /// `var_num`.
    fn occ_count(&self, var_num: usize, lit: Literal) -> (r: usize)
        requires
            fam_wf(self@, self.num_vars_spec()),
            1 <= var_num <= self.num_vars_spec(),
        ensures
            r == count_lit(self@, var_num as int, lit, self@.len() as int),
            r <= self@.len(),
    {
        let mut count: usize = 0;
        let n = self.cubes.len();
        let mut i: usize = 0;
        while i < n
            invariant
                n == self@.len(),
                0 <= i <= n,
                fam_wf(self@, self.num_vars_spec()),
                1 <= var_num <= self.num_vars_spec(),
                count == count_lit(self@, var_num as int, lit, i as int),
                count <= i,
            decreases n - i,
        {
            let cube = &self.cubes[i];
            proof {
                assert(self@[i as int] == cube@);
            }
            if cube.get_literal(var_num).unwrap() == lit {
                count += 1;
            }
            i += 1;
        }
        count
    }

    /// Tests whether the function is unate: no variable occurs as a
    /// positive literal in one cube and as a negative literal in another.
    pub fn is_unate(&self) -> (r: bool)
        requires
            fam_wf(self@, self.num_vars_spec()),
        ensures
            r == fam_unate(self@, self.num_vars_spec()),
    {
        let n = self.num_var;
        let mut idx: usize = 0;
        while idx < n
            invariant
                n == self.num_vars_spec(),
                0 <= idx <= n,
                fam_wf(self@, self.num_vars_spec()),
                forall|u: int| 1 <= u <= idx ==> !binate(self@, u),
            decreases n - idx,
        {
            let v = idx + 1;
            let p = self.occ_count(v, Literal::Positive);
            let q = self.occ_count(v, Literal::Negative);
            if p != 0 && q != 0 {
                proof {
                    assert(binate(self@, v as int));
                }
                return false;
            }
            idx += 1;
        }
        true
    }

    /// Chooses the variable for the next recursive split, by an explicit
    /// priority comparator: among the binate variables — or among all
    /// occurring variables when the family is unate — it prefers the
    /// largest combined occurrence count, breaking ties first by the most
    /// balanced polarity counts and then by the lowest variable number.
    /// When no variable occurs at all, zero is returned.
    pub fn get_most_unate_var(&self) -> (r: usize)
        requires
            fam_wf(self@, self.num_vars_spec()),
        ensures
            !fam_unate(self@, self.num_vars_spec()) ==> {
                &&& 1 <= r <= self.num_vars_spec()
                &&& binate(self@, r as int)
                &&& forall|v: int|
                    1 <= v <= self.num_vars_spec() && binate(self@, v) ==> prefers(
                        self@,
                        r as int,
                        v,
                    )
            },
            fam_unate(self@, self.num_vars_spec()) && (exists|v: int|
                1 <= v <= self.num_vars_spec() && combined(self@, v) > 0) ==> {
                &&& 1 <= r <= self.num_vars_spec()
                &&& combined(self@, r as int) > 0
                &&& forall|v: int| 1 <= v <= self.num_vars_spec() ==> prefers(self@, r as int, v)
            },
            fam_unate(self@, self.num_vars_spec()) && !(exists|v: int|
                1 <= v <= self.num_vars_spec() && combined(self@, v) > 0) ==> r == 0,
    {
        let n = self.num_var;
        let unate = self.is_unate();
        let num_cubes = self.cubes.len();
        let mut best: usize = 0;
        let mut best_comb: usize = 0;
        let mut best_bal: usize = 0;
        let mut idx: usize = 0;
        while idx < n
            invariant
                n == self.num_vars_spec(),
                num_cubes == self@.len(),
                0 <= idx <= n,
                fam_wf(self@, self.num_vars_spec()),
                unate == fam_unate(self@, self.num_vars_spec()),
                best == 0 ==> forall|u: int| 1 <= u <= idx ==> !split_candidate(self@, unate, u),
                best != 0 ==> {
                    &&& 1 <= best <= idx
                    &&& split_candidate(self@, unate, best as int)
                    &&& best_comb == combined(self@, best as int)
                    &&& best_bal == balance(self@, best as int)
                    &&& forall|u: int|
                        1 <= u <= idx && split_candidate(self@, unate, u) ==> prefers(
                            self@,
                            best as int,
                            u,
                        )
                },
            decreases n - idx,
        {
            let v = idx + 1;
            let p = self.occ_count(v, Literal::Positive);
            let q = self.occ_count(v, Literal::Negative);
            proof {
                lemma_counts_disjoint(self@, v as int, self@.len() as int);
            }
            let eligible = if unate {
                p + q > 0
            } else {
                p > 0 && q > 0
            };
            if eligible {
                let comb = p + q;
                let bal = if p >= q {
                    p - q
                } else {
                    q - p
                };
                if best == 0 || comb > best_comb || (comb == best_comb && bal < best_bal) {
                    best = v;
                    best_comb = comb;
                    best_bal = bal;
                }
            }
            idx += 1;
        }
        proof {
            if !fam_unate(self@, self.num_vars_spec()) {
                let w = choose|w: int| 1 <= w <= self.num_vars_spec() && binate(self@, w);
                assert(split_candidate(self@, unate, w));
                assert(best != 0);
            }
            if fam_unate(self@, self.num_vars_spec()) && (exists|w: int|
                1 <= w <= self.num_vars_spec() && combined(self@, w) > 0) {
                let w = choose|w: int| 1 <= w <= self.num_vars_spec() && combined(self@, w) > 0;
                assert(split_candidate(self@, unate, w));
                assert(best != 0);
                assert forall|u: int| 1 <= u <= self.num_vars_spec() implies prefers(
                    self@,
                    best as int,
                    u,
                ) by {
                    if combined(self@, u) > 0 {
                        assert(split_candidate(self@, unate, u));
                    } else {
                        assert(combined(self@, best as int) > 0);
                    }
                }
            }
        }
        best
    }
}

} // verus!
