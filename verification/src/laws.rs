//! Algebraic laws of the cube engine, stated and proved over the same
//! specification functions that the executable operations are contracted
//! against.

use vstd::prelude::*;

use crate::cube::Literal;
use crate::cube::complement_cubes;
use crate::cube::cube_and_seq;
use crate::cube::cube_compatible;
use crate::cube::cube_eval;
use crate::cube::lit_and;
use crate::cube::lit_compatible;
use crate::cube::lit_opposite;
use crate::cube::var_cube_seq;
use crate::cubelist::fam_and;
use crate::cubelist::fam_eval;
use crate::cubelist::fam_or;
use crate::cubelist::fam_wf;
use crate::cubelist::is_taut;
use crate::cubelist::neg_cofactor;
use crate::cubelist::pos_cofactor;
use crate::semantics::lemma_complement_cubes_shape;
use crate::semantics::lemma_cube_complement_eval_full;
use crate::semantics::lemma_fam_and_membership;
use crate::semantics::lemma_fam_eval_single;
use crate::semantics::lemma_fam_or_eval;
use crate::semantics::lemma_fam_or_membership;
use crate::semantics::lemma_shannon_taut;

verus! {

/// The assignments over `n` variables that make the function true: its
/// minterm set.
pub open spec fn minterms(f: Seq<Seq<Literal>>, n: nat) -> Set<Seq<bool>> {
    Set::new(|a: Seq<bool>| a.len() == n && fam_eval(f, a))
}

/// Cube AND is commutative: compatibility is symmetric, and on compatible
/// cubes the position-wise conjunction gives the same cube either way
/// around. Opposite literals at any shared position conflict in both
/// orders alike.
pub proof fn lemma_cube_and_commutative(c: Seq<Literal>, d: Seq<Literal>)
    requires
        c.len() == d.len(),
    ensures
        cube_compatible(c, d) == cube_compatible(d, c),
        cube_compatible(c, d) ==> cube_and_seq(c, d) == cube_and_seq(d, c),
{
    assert(forall|i: int|
        0 <= i < c.len() ==> lit_compatible(#[trigger] c[i], d[i]) == lit_compatible(d[i], c[i]));
    if cube_compatible(c, d) {
        assert(cube_and_seq(c, d) =~= cube_and_seq(d, c)) by {
            assert(forall|i: int|
                0 <= i < c.len() ==> lit_and(#[trigger] c[i], d[i]) == lit_and(d[i], c[i]));
        }
    }
}

/// Cube AND is associative: the position-wise conjunction of three cubes
/// does not depend on the grouping, and the two compatibility conditions of
/// one grouping hold exactly when those of the other do.
pub proof fn lemma_cube_and_associative(c: Seq<Literal>, d: Seq<Literal>, e: Seq<Literal>)
    requires
        c.len() == d.len() == e.len(),
    ensures
        cube_and_seq(cube_and_seq(c, d), e) == cube_and_seq(c, cube_and_seq(d, e)),
        (cube_compatible(c, d) && cube_compatible(cube_and_seq(c, d), e)) == (cube_compatible(d, e)
            && cube_compatible(c, cube_and_seq(d, e))),
{
    assert(cube_and_seq(cube_and_seq(c, d), e) =~= cube_and_seq(c, cube_and_seq(d, e)));
    if cube_compatible(c, d) && cube_compatible(cube_and_seq(c, d), e) {
        assert forall|i: int| 0 <= i < d.len() implies lit_compatible(#[trigger] d[i], e[i]) by {
            assert(lit_compatible(c[i], d[i]));
            assert(lit_compatible(cube_and_seq(c, d)[i], e[i]));
            assert(cube_and_seq(c, d)[i] == lit_and(c[i], d[i]));
        }
        assert forall|i: int| 0 <= i < c.len() implies lit_compatible(
            #[trigger] c[i],
            cube_and_seq(d, e)[i],
        ) by {
            assert(lit_compatible(c[i], d[i]));
            assert(lit_compatible(cube_and_seq(c, d)[i], e[i]));
            assert(cube_and_seq(c, d)[i] == lit_and(c[i], d[i]));
            assert(cube_and_seq(d, e)[i] == lit_and(d[i], e[i]));
        }
    }
    if cube_compatible(d, e) && cube_compatible(c, cube_and_seq(d, e)) {
        assert forall|i: int| 0 <= i < c.len() implies lit_compatible(#[trigger] c[i], d[i]) by {
            assert(lit_compatible(d[i], e[i]));
            assert(lit_compatible(c[i], cube_and_seq(d, e)[i]));
            assert(cube_and_seq(d, e)[i] == lit_and(d[i], e[i]));
        }
        assert forall|i: int| 0 <= i < c.len() implies lit_compatible(
            #[trigger] cube_and_seq(c, d)[i],
            e[i],
        ) by {
            assert(lit_compatible(d[i], e[i]));
            assert(lit_compatible(c[i], cube_and_seq(d, e)[i]));
            assert(cube_and_seq(d, e)[i] == lit_and(d[i], e[i]));
            assert(cube_and_seq(c, d)[i] == lit_and(c[i], d[i]));
        }
    }
}

/// Cube complement round trip, first half: a cube ANDed with its
/// complement is the empty family, since every complement cube opposes one
/// of its literals.
pub proof fn lemma_cube_complement_and_empty(c: Seq<Literal>)
    ensures
        fam_and(seq![c], complement_cubes(c, c.len() as int), 1) == Seq::<Seq<Literal>>::empty(),
{
    let cc = complement_cubes(c, c.len() as int);
    let prod = fam_and(seq![c], cc, 1);
    lemma_complement_cubes_shape(c, c.len() as int);
    assert forall|j: int| 0 <= j < cc.len() implies !cube_compatible(c, #[trigger] cc[j]) by {
        let p = choose|p: int|
            1 <= p <= c.len() && #[trigger] c[p - 1] != Literal::Dontcare && #[trigger] cc[j]
                == var_cube_seq(c.len(), p, lit_opposite(c[p - 1]));
        assert(cc[j][p - 1] == lit_opposite(c[p - 1]));
        assert(!lit_compatible(c[p - 1], cc[j][p - 1]));
    }
    if prod.len() > 0 {
        assert(prod.contains(prod[0]));
        lemma_fam_and_membership(seq![c], cc, 1, prod[0]);
        let (i, j) = choose|i: int, j: int|
            0 <= i < 1 && 0 <= j < cc.len() && cube_compatible(
                #[trigger] seq![c][i],
                #[trigger] cc[j],
            ) && prod[0] == cube_and_seq(seq![c][i], cc[j]);
        assert(seq![c][i] == c);
        assert(false);
    }
    assert(prod =~= Seq::<Seq<Literal>>::empty());
}

/// Cube complement round trip, second half: a cube ORed with its
/// complement is a tautology.
pub proof fn lemma_cube_complement_or_taut(c: Seq<Literal>)
    ensures
        is_taut(
            fam_or(
                seq![c],
                complement_cubes(c, c.len() as int),
                complement_cubes(c, c.len() as int).len() as int,
            ),
            c.len(),
        ),
{
    let cc = complement_cubes(c, c.len() as int);
    let u = fam_or(seq![c], cc, cc.len() as int);
    assert forall|a: Seq<bool>| a.len() == c.len() implies fam_eval(u, a) by {
        lemma_fam_or_eval(seq![c], cc, cc.len() as int, a);
        lemma_cube_complement_eval_full(c, a);
        lemma_fam_eval_single(seq![c], a);
        assert(seq![c][0] == c);
    }
}

/// Family OR is idempotent: joining a family with itself neither adds nor
/// removes any cube.
pub proof fn lemma_or_idempotent(a: Seq<Seq<Literal>>)
    ensures
        forall|x: Seq<Literal>| #[trigger] fam_or(a, a, a.len() as int).contains(x) == a.contains(
            x,
        ),
{
    assert forall|x: Seq<Literal>| #[trigger] fam_or(a, a, a.len() as int).contains(x)
        == a.contains(x) by {
        lemma_fam_or_membership(a, a, a.len() as int, x);
    }
}

/// Family OR is a superset operation: every cube of either operand stands
/// in the union.
pub proof fn lemma_or_superset(a: Seq<Seq<Literal>>, b: Seq<Seq<Literal>>)
    ensures
        forall|x: Seq<Literal>|
            a.contains(x) || b.contains(x) ==> #[trigger] fam_or(a, b, b.len() as int).contains(x),
{
    assert forall|x: Seq<Literal>| a.contains(x) || b.contains(x) implies #[trigger] fam_or(
        a,
        b,
        b.len() as int,
    ).contains(x) by {
        lemma_fam_or_membership(a, b, b.len() as int, x);
        if b.contains(x) {
            let i = choose|i: int| 0 <= i < b.len() && b[i] == x;
            assert(0 <= i < b.len() && b[i] == x);
        }
    }
}

/// Family AND distributes over the cubes: a cube stands in the product
/// exactly when it is the conjunction of a non-conflicting pair drawn from
/// the two operands.
pub proof fn lemma_and_membership(a: Seq<Seq<Literal>>, b: Seq<Seq<Literal>>, x: Seq<Literal>)
    ensures
        fam_and(a, b, a.len() as int).contains(x) == (exists|i: int, j: int|
            0 <= i < a.len() && 0 <= j < b.len() && cube_compatible(#[trigger] a[i], #[trigger] b[j])
                && x == cube_and_seq(a[i], b[j])),
{
    lemma_fam_and_membership(a, b, a.len() as int, x);
}

/// Cofactor reconstruction: a family is a tautology exactly when both of
/// its Shannon cofactors with respect to any variable are tautologies.
pub proof fn lemma_cofactor_tautology(f: Seq<Seq<Literal>>, n: nat, v: int)
    requires
        fam_wf(f, n),
        1 <= v <= n,
    ensures
        is_taut(f, n) == (is_taut(pos_cofactor(f, v, f.len() as int), n) && is_taut(
            neg_cofactor(f, v, f.len() as int),
            n,
        )),
{
    lemma_shannon_taut(f, n, v);
}

/// Complement involution: complementing twice restores exactly the
/// original set of minterms, whatever cube list the complements chose to
/// carry them with.
pub proof fn lemma_complement_involution(
    f: Seq<Seq<Literal>>,
    g: Seq<Seq<Literal>>,
    h: Seq<Seq<Literal>>,
    n: nat,
)
    requires
        forall|a: Seq<bool>| a.len() == n ==> #[trigger] fam_eval(g, a) == !fam_eval(f, a),
        forall|a: Seq<bool>| a.len() == n ==> #[trigger] fam_eval(h, a) == !fam_eval(g, a),
    ensures
        minterms(h, n) == minterms(f, n),
{
    assert forall|a: Seq<bool>| #[trigger] minterms(h, n).contains(a) == minterms(f, n).contains(
        a,
    ) by {
        if a.len() == n {
            assert(fam_eval(g, a) == !fam_eval(f, a));
            assert(fam_eval(h, a) == !fam_eval(g, a));
        }
    }
    assert(minterms(h, n) =~= minterms(f, n));
}

} // verus!
