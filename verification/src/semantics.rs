//! Lemmas connecting the syntactic cube operations to the Boolean
//! functions they denote: how families evaluate under assignments, how
//! Shannon cofactors relate to the original function, and why cofactoring
//! on an occurring variable shrinks the literal-count measure.

use vstd::prelude::*;

use crate::cube::Literal;
use crate::cube::all_dontcare;
use crate::cube::complement_cubes;
use crate::cube::cube_and_seq;
use crate::cube::cube_compatible;
use crate::cube::cube_eval;
use crate::cube::dc_seq;
use crate::cube::lit_and;
use crate::cube::lit_compatible;
use crate::cube::lit_eval;
use crate::cube::lit_opposite;
use crate::cube::var_cube_seq;
use crate::cubelist::count_lit;
use crate::cubelist::cube_weight;
use crate::cubelist::fam_and;
use crate::cubelist::fam_and_row;
use crate::cubelist::fam_eval;
use crate::cubelist::fam_or;
use crate::cubelist::fam_weight;
use crate::cubelist::fam_wf;
use crate::cubelist::is_taut;
use crate::cubelist::lemma_count_pos_iff_exists;
use crate::cubelist::neg_cofactor;
use crate::cubelist::pos_cofactor;

verus! {

/// Appending one cube to a family adds exactly that cube's assignments to
/// the sum.
pub proof fn lemma_fam_eval_push(p: Seq<Seq<Literal>>, c: Seq<Literal>, a: Seq<bool>)
    ensures
        fam_eval(p.push(c), a) == (fam_eval(p, a) || cube_eval(c, a)),
{
    let q = p.push(c);
    if fam_eval(q, a) {
        let i = choose|i: int| 0 <= i < q.len() && cube_eval(#[trigger] q[i], a);
        if i < p.len() {
            assert(q[i] == p[i]);
            assert(fam_eval(p, a));
        } else {
            assert(q[i] == c);
        }
    }
    if fam_eval(p, a) {
        let i = choose|i: int| 0 <= i < p.len() && cube_eval(#[trigger] p[i], a);
        assert(q[i] == p[i]);
        assert(fam_eval(q, a));
    }
    if cube_eval(c, a) {
        assert(q[p.len() as int] == c);
        assert(fam_eval(q, a));
    }
}

/// A family of exactly one cube is true exactly when that cube is.
pub proof fn lemma_fam_eval_single(f: Seq<Seq<Literal>>, a: Seq<bool>)
    requires
        f.len() == 1,
    ensures
        fam_eval(f, a) == cube_eval(f[0], a),
{
    if cube_eval(f[0], a) {
        assert(fam_eval(f, a));
    }
}

/// The all-don't-care cube is true under every assignment.
pub proof fn lemma_dc_cube_eval(n: nat, a: Seq<bool>)
    ensures
        cube_eval(dc_seq(n), a),
{
}

/// A family holding the all-don't-care cube is a tautology.
pub proof fn lemma_contains_all_dc_taut(f: Seq<Seq<Literal>>, n: nat)
    requires
        f.contains(dc_seq(n)),
    ensures
        is_taut(f, n),
{
    assert forall|a: Seq<bool>| a.len() == n implies fam_eval(f, a) by {
        let i = choose|i: int| 0 <= i < f.len() && f[i] == dc_seq(n);
        lemma_dc_cube_eval(n, a);
        assert(cube_eval(f[i], a));
        assert(fam_eval(f, a));
    }
}

/// Resetting a satisfied literal to don't-care does not change what the
/// cube evaluates to under that assignment.
pub proof fn lemma_cube_eval_reset(c: Seq<Literal>, a: Seq<bool>, j: int)
    requires
        0 <= j < c.len(),
        a.len() == c.len(),
        lit_eval(c[j], a[j]),
    ensures
        cube_eval(c.update(j, Literal::Dontcare), a) == cube_eval(c, a),
{
    let cu = c.update(j, Literal::Dontcare);
    if cube_eval(c, a) {
        assert forall|i: int| 0 <= i < cu.len() implies lit_eval(#[trigger] cu[i], a[i]) by {
            if i != j {
                assert(cu[i] == c[i]);
            }
        }
    }
    if cube_eval(cu, a) {
        assert forall|i: int| 0 <= i < c.len() implies lit_eval(#[trigger] c[i], a[i]) by {
            if i != j {
                assert(cu[i] == c[i]);
                assert(lit_eval(cu[i], a[i]));
            }
        }
    }
}

/// A cube that holds no literal at position `j` does not read that
/// position of the assignment.
pub proof fn lemma_cube_eval_update_assignment(c: Seq<Literal>, a: Seq<bool>, j: int, x: bool)
    requires
        0 <= j < a.len(),
        a.len() == c.len(),
        c[j] == Literal::Dontcare,
    ensures
        cube_eval(c, a.update(j, x)) == cube_eval(c, a),
{
    let au = a.update(j, x);
    if cube_eval(c, a) {
        assert forall|i: int| 0 <= i < c.len() implies lit_eval(#[trigger] c[i], au[i]) by {
            if i != j {
                assert(au[i] == a[i]);
            }
        }
    }
    if cube_eval(c, au) {
        assert forall|i: int| 0 <= i < c.len() implies lit_eval(#[trigger] c[i], a[i]) by {
            if i != j {
                assert(au[i] == a[i]);
                assert(lit_eval(c[i], au[i]));
            }
        }
    }
}

/// A family none of whose cubes holds a literal at position `j` does not
/// read that position of the assignment.
pub proof fn lemma_fam_eval_update_assignment(f: Seq<Seq<Literal>>, a: Seq<bool>, j: int, x: bool)
    requires
        0 <= j < a.len(),
        forall|i: int| 0 <= i < f.len() ==> (#[trigger] f[i]).len() == a.len(),
        forall|i: int| 0 <= i < f.len() ==> (#[trigger] f[i])[j] == Literal::Dontcare,
    ensures
        fam_eval(f, a.update(j, x)) == fam_eval(f, a),
{
    let au = a.update(j, x);
    if fam_eval(f, a) {
        let i = choose|i: int| 0 <= i < f.len() && cube_eval(#[trigger] f[i], a);
        lemma_cube_eval_update_assignment(f[i], a, j, x);
        assert(cube_eval(f[i], au));
        assert(fam_eval(f, au));
    }
    if fam_eval(f, au) {
        let i = choose|i: int| 0 <= i < f.len() && cube_eval(#[trigger] f[i], au);
        lemma_cube_eval_update_assignment(f[i], a, j, x);
        assert(cube_eval(f[i], a));
        assert(fam_eval(f, a));
    }
}

/// Every cube of the positive cofactor keeps the family's variable count
/// and holds no literal at the split variable.
pub proof fn lemma_pos_cofactor_shape(f: Seq<Seq<Literal>>, v: int, k: int, n: nat)
    requires
        fam_wf(f, n),
        1 <= v <= n,
        k <= f.len(),
    ensures
        fam_wf(pos_cofactor(f, v, k), n),
        forall|i: int|
            0 <= i < pos_cofactor(f, v, k).len() ==> (#[trigger] pos_cofactor(f, v, k)[i])[v - 1]
                == Literal::Dontcare,
    decreases k,
{
    if k > 0 {
        lemma_pos_cofactor_shape(f, v, k - 1, n);
    }
}

/// Every cube of the negative cofactor keeps the family's variable count
/// and holds no literal at the split variable.
pub proof fn lemma_neg_cofactor_shape(f: Seq<Seq<Literal>>, v: int, k: int, n: nat)
    requires
        fam_wf(f, n),
        1 <= v <= n,
        k <= f.len(),
    ensures
        fam_wf(neg_cofactor(f, v, k), n),
        forall|i: int|
            0 <= i < neg_cofactor(f, v, k).len() ==> (#[trigger] neg_cofactor(f, v, k)[i])[v - 1]
                == Literal::Dontcare,
    decreases k,
{
    if k > 0 {
        lemma_neg_cofactor_shape(f, v, k - 1, n);
    }
}

/// Under an assignment that sets the split variable true, the positive
/// cofactor of the first `k` cubes is true exactly when one of those cubes
/// is.
pub proof fn lemma_pos_cofactor_eval(f: Seq<Seq<Literal>>, v: int, k: int, n: nat, a: Seq<bool>)
    requires
        fam_wf(f, n),
        1 <= v <= n,
        0 <= k <= f.len(),
        a.len() == n,
        a[v - 1] == true,
    ensures
        fam_eval(pos_cofactor(f, v, k), a) == (exists|i: int|
            0 <= i < k && cube_eval(#[trigger] f[i], a)),
    decreases k,
{
    if k > 0 {
        lemma_pos_cofactor_eval(f, v, k - 1, n, a);
        let p = pos_cofactor(f, v, k - 1);
        let c = f[k - 1];
        if c[v - 1] == Literal::Positive {
            lemma_fam_eval_push(p, c.update(v - 1, Literal::Dontcare), a);
            lemma_cube_eval_reset(c, a, v - 1);
        } else if c[v - 1] == Literal::Negative {
            assert(!lit_eval(c[v - 1], a[v - 1]));
            assert(!cube_eval(c, a));
        } else {
            lemma_fam_eval_push(p, c, a);
        }
        assert((exists|i: int| 0 <= i < k && cube_eval(#[trigger] f[i], a)) == ((exists|i: int|
            0 <= i < k - 1 && cube_eval(#[trigger] f[i], a)) || cube_eval(f[k - 1], a))) by {
            if exists|i: int| 0 <= i < k && cube_eval(#[trigger] f[i], a) {
                let i = choose|i: int| 0 <= i < k && cube_eval(#[trigger] f[i], a);
                assert(i < k - 1 || i == k - 1);
            }
        }
    }
}

/// Under an assignment that sets the split variable false, the negative
/// cofactor of the first `k` cubes is true exactly when one of those cubes
/// is.
pub proof fn lemma_neg_cofactor_eval(f: Seq<Seq<Literal>>, v: int, k: int, n: nat, a: Seq<bool>)
    requires
        fam_wf(f, n),
        1 <= v <= n,
        0 <= k <= f.len(),
        a.len() == n,
        a[v - 1] == false,
    ensures
        fam_eval(neg_cofactor(f, v, k), a) == (exists|i: int|
            0 <= i < k && cube_eval(#[trigger] f[i], a)),
    decreases k,
{
    if k > 0 {
        lemma_neg_cofactor_eval(f, v, k - 1, n, a);
        let p = neg_cofactor(f, v, k - 1);
        let c = f[k - 1];
        if c[v - 1] == Literal::Negative {
            lemma_fam_eval_push(p, c.update(v - 1, Literal::Dontcare), a);
            lemma_cube_eval_reset(c, a, v - 1);
        } else if c[v - 1] == Literal::Positive {
            assert(!lit_eval(c[v - 1], a[v - 1]));
            assert(!cube_eval(c, a));
        } else {
            lemma_fam_eval_push(p, c, a);
        }
        assert((exists|i: int| 0 <= i < k && cube_eval(#[trigger] f[i], a)) == ((exists|i: int|
            0 <= i < k - 1 && cube_eval(#[trigger] f[i], a)) || cube_eval(f[k - 1], a))) by {
            if exists|i: int| 0 <= i < k && cube_eval(#[trigger] f[i], a) {
                let i = choose|i: int| 0 <= i < k && cube_eval(#[trigger] f[i], a);
                assert(i < k - 1 || i == k - 1);
            }
        }
    }
}

/// Under an assignment that sets the split variable true, the whole family
/// agrees with its positive cofactor, and under one that sets it false,
/// with its negative cofactor.
pub proof fn lemma_cofactor_eval(f: Seq<Seq<Literal>>, v: int, n: nat, a: Seq<bool>)
    requires
        fam_wf(f, n),
        1 <= v <= n,
        a.len() == n,
    ensures
        a[v - 1] ==> fam_eval(pos_cofactor(f, v, f.len() as int), a) == fam_eval(f, a),
        !a[v - 1] ==> fam_eval(neg_cofactor(f, v, f.len() as int), a) == fam_eval(f, a),
{
    if a[v - 1] {
        lemma_pos_cofactor_eval(f, v, f.len() as int, n, a);
    } else {
        lemma_neg_cofactor_eval(f, v, f.len() as int, n, a);
    }
}

/// Shannon reconstruction for tautology checking: a family is a tautology
/// exactly when both of its cofactors with respect to any variable are.
pub proof fn lemma_shannon_taut(f: Seq<Seq<Literal>>, n: nat, v: int)
    requires
        fam_wf(f, n),
        1 <= v <= n,
    ensures
        is_taut(f, n) == (is_taut(pos_cofactor(f, v, f.len() as int), n) && is_taut(
            neg_cofactor(f, v, f.len() as int),
            n,
        )),
{
    let len = f.len() as int;
    let fp = pos_cofactor(f, v, len);
    let fq = neg_cofactor(f, v, len);
    lemma_pos_cofactor_shape(f, v, len, n);
    lemma_neg_cofactor_shape(f, v, len, n);
    if is_taut(f, n) {
        assert forall|a: Seq<bool>| a.len() == n implies fam_eval(fp, a) by {
            let au = a.update(v - 1, true);
            assert(au.len() == n);
            assert(fam_eval(f, au));
            lemma_cofactor_eval(f, v, n, au);
            assert(fam_eval(fp, au));
            lemma_fam_eval_update_assignment(fp, a, v - 1, true);
        }
        assert forall|a: Seq<bool>| a.len() == n implies fam_eval(fq, a) by {
            let au = a.update(v - 1, false);
            assert(au.len() == n);
            assert(fam_eval(f, au));
            lemma_cofactor_eval(f, v, n, au);
            assert(fam_eval(fq, au));
            lemma_fam_eval_update_assignment(fq, a, v - 1, false);
        }
    }
    if is_taut(fp, n) && is_taut(fq, n) {
        assert forall|a: Seq<bool>| a.len() == n implies fam_eval(f, a) by {
            lemma_cofactor_eval(f, v, n, a);
            if a[v - 1] {
                assert(fam_eval(fp, a));
            } else {
                assert(fam_eval(fq, a));
            }
        }
    }
}

/// A unate family that lacks the all-don't-care cube is falsified by the
/// assignment that sets each variable against its sole polarity, so it is
/// no tautology.
pub proof fn lemma_unate_not_taut(f: Seq<Seq<Literal>>, n: nat)
    requires
        fam_wf(f, n),
        crate::cubelist::fam_unate(f, n),
        !f.contains(dc_seq(n)),
    ensures
        !is_taut(f, n),
{
    let a = Seq::new(n, |j: int| count_lit(f, j + 1, Literal::Negative, f.len() as int) > 0);
    assert forall|i: int| 0 <= i < f.len() implies !cube_eval(#[trigger] f[i], a) by {
        let c = f[i];
        assert(c.len() == n);
        if all_dontcare(c) {
            assert(c =~= dc_seq(n));
            assert(f.contains(dc_seq(n)));
            assert(false);
        }
        let j = choose|j: int| 0 <= j < c.len() && c[j] != Literal::Dontcare;
        let v = j + 1;
        if c[j] == Literal::Positive {
            lemma_count_pos_iff_exists(f, v, Literal::Positive, f.len() as int);
            assert((#[trigger] f[i])[v - 1] == Literal::Positive);
            assert(count_lit(f, v, Literal::Positive, f.len() as int) > 0);
            assert(!crate::cubelist::binate(f, v));
            assert(count_lit(f, v, Literal::Negative, f.len() as int) == 0);
            assert(a[j] == false);
            assert(!lit_eval(c[j], a[j]));
        } else {
            lemma_count_pos_iff_exists(f, v, Literal::Negative, f.len() as int);
            assert((#[trigger] f[i])[v - 1] == Literal::Negative);
            assert(count_lit(f, v, Literal::Negative, f.len() as int) > 0);
            assert(a[j] == true);
            assert(!lit_eval(c[j], a[j]));
        }
    }
    assert(a.len() == n);
    assert(!fam_eval(f, a));
}

/// A cube whose first `k` positions include a literal carries at least one
/// literal in all.
pub proof fn lemma_cube_weight_pos(c: Seq<Literal>, j: int, k: int)
    requires
        0 <= j < k,
        c[j] != Literal::Dontcare,
    ensures
        cube_weight(c, k) >= 1,
    decreases k,
{
    if j < k - 1 {
        lemma_cube_weight_pos(c, j, k - 1);
    }
}

/// Resetting a literal to don't-care lowers the cube's literal count by
/// exactly one.
pub proof fn lemma_cube_weight_reset(c: Seq<Literal>, j: int, k: int)
    requires
        0 <= j < k,
        k <= c.len(),
        c[j] != Literal::Dontcare,
    ensures
        cube_weight(c.update(j, Literal::Dontcare), k) == cube_weight(c, k) - 1,
    decreases k,
{
    let cu = c.update(j, Literal::Dontcare);
    if j == k - 1 {
        lemma_cube_weight_agree(c, cu, k - 1);
    } else {
        lemma_cube_weight_reset(c, j, k - 1);
        assert(cu[k - 1] == c[k - 1]);
    }
}

/// The literal count of the first `k` positions reads only those
/// positions.
pub proof fn lemma_cube_weight_agree(c: Seq<Literal>, d: Seq<Literal>, k: int)
    requires
        forall|i: int| 0 <= i < k ==> c[i] == d[i],
    ensures
        cube_weight(c, k) == cube_weight(d, k),
    decreases k,
{
    if k > 0 {
        lemma_cube_weight_agree(c, d, k - 1);
    }
}

/// The literal count of the first `k` cubes reads only those cubes.
pub proof fn lemma_fam_weight_agree(s: Seq<Seq<Literal>>, t: Seq<Seq<Literal>>, k: int)
    requires
        forall|i: int| 0 <= i < k ==> s[i] == t[i],
    ensures
        fam_weight(s, k) == fam_weight(t, k),
    decreases k,
{
    if k > 0 {
        lemma_fam_weight_agree(s, t, k - 1);
    }
}

/// The positive cofactor never carries more literals than the cubes it
/// came from, and carries strictly fewer as soon as the split variable
/// occurs among them.
pub proof fn lemma_pos_cofactor_weight(f: Seq<Seq<Literal>>, v: int, k: int, n: nat)
    requires
        fam_wf(f, n),
        1 <= v <= n,
        0 <= k <= f.len(),
    ensures
        fam_weight(pos_cofactor(f, v, k), pos_cofactor(f, v, k).len() as int) <= fam_weight(f, k),
        (exists|i: int| 0 <= i < k && (#[trigger] f[i])[v - 1] != Literal::Dontcare)
            ==> fam_weight(pos_cofactor(f, v, k), pos_cofactor(f, v, k).len() as int) < fam_weight(
            f,
            k,
        ),
    decreases k,
{
    if k > 0 {
        lemma_pos_cofactor_weight(f, v, k - 1, n);
        let p = pos_cofactor(f, v, k - 1);
        let pc = pos_cofactor(f, v, k);
        let c = f[k - 1];
        assert(c.len() == n);
        if c[v - 1] == Literal::Positive {
            let cu = c.update(v - 1, Literal::Dontcare);
            assert(pc == p.push(cu));
            lemma_fam_weight_agree(p.push(cu), p, p.len() as int);
            assert(fam_weight(pc, pc.len() as int) == fam_weight(p, p.len() as int) + cube_weight(
                cu,
                cu.len() as int,
            ));
            lemma_cube_weight_reset(c, v - 1, c.len() as int);
            assert((#[trigger] f[k - 1])[v - 1] != Literal::Dontcare);
        } else if c[v - 1] == Literal::Negative {
            lemma_cube_weight_pos(c, v - 1, c.len() as int);
            assert((#[trigger] f[k - 1])[v - 1] != Literal::Dontcare);
        } else {
            assert(pc == p.push(c));
            lemma_fam_weight_agree(p.push(c), p, p.len() as int);
            assert(fam_weight(pc, pc.len() as int) == fam_weight(p, p.len() as int) + cube_weight(
                c,
                c.len() as int,
            ));
            if exists|i: int| 0 <= i < k && (#[trigger] f[i])[v - 1] != Literal::Dontcare {
                let i = choose|i: int| 0 <= i < k && (#[trigger] f[i])[v - 1] != Literal::Dontcare;
                assert(i < k - 1);
            }
        }
    }
}

/// The negative cofactor never carries more literals than the cubes it
/// came from, and carries strictly fewer as soon as the split variable
/// occurs among them.
pub proof fn lemma_neg_cofactor_weight(f: Seq<Seq<Literal>>, v: int, k: int, n: nat)
    requires
        fam_wf(f, n),
        1 <= v <= n,
        0 <= k <= f.len(),
    ensures
        fam_weight(neg_cofactor(f, v, k), neg_cofactor(f, v, k).len() as int) <= fam_weight(f, k),
        (exists|i: int| 0 <= i < k && (#[trigger] f[i])[v - 1] != Literal::Dontcare)
            ==> fam_weight(neg_cofactor(f, v, k), neg_cofactor(f, v, k).len() as int) < fam_weight(
            f,
            k,
        ),
    decreases k,
{
    if k > 0 {
        lemma_neg_cofactor_weight(f, v, k - 1, n);
        let p = neg_cofactor(f, v, k - 1);
        let pc = neg_cofactor(f, v, k);
        let c = f[k - 1];
        assert(c.len() == n);
        if c[v - 1] == Literal::Negative {
            let cu = c.update(v - 1, Literal::Dontcare);
            assert(pc == p.push(cu));
            lemma_fam_weight_agree(p.push(cu), p, p.len() as int);
            assert(fam_weight(pc, pc.len() as int) == fam_weight(p, p.len() as int) + cube_weight(
                cu,
                cu.len() as int,
            ));
            lemma_cube_weight_reset(c, v - 1, c.len() as int);
            assert((#[trigger] f[k - 1])[v - 1] != Literal::Dontcare);
        } else if c[v - 1] == Literal::Positive {
            lemma_cube_weight_pos(c, v - 1, c.len() as int);
            assert((#[trigger] f[k - 1])[v - 1] != Literal::Dontcare);
        } else {
            assert(pc == p.push(c));
            lemma_fam_weight_agree(p.push(c), p, p.len() as int);
            assert(fam_weight(pc, pc.len() as int) == fam_weight(p, p.len() as int) + cube_weight(
                c,
                c.len() as int,
            ));
            if exists|i: int| 0 <= i < k && (#[trigger] f[i])[v - 1] != Literal::Dontcare {
                let i = choose|i: int| 0 <= i < k && (#[trigger] f[i])[v - 1] != Literal::Dontcare;
                assert(i < k - 1);
            }
        }
    }
}

/// Every cube of the complement of a cube keeps the variable count, and
/// each is the single-literal cube opposing one literal of the original.
pub proof fn lemma_complement_cubes_shape(c: Seq<Literal>, k: int)
    requires
        0 <= k <= c.len(),
    ensures
        forall|i: int|
            0 <= i < complement_cubes(c, k).len() ==> (#[trigger] complement_cubes(c, k)[i]).len()
                == c.len(),
        forall|i: int|
            0 <= i < complement_cubes(c, k).len() ==> exists|p: int|
                1 <= p <= k && #[trigger] c[p - 1] != Literal::Dontcare && #[trigger] complement_cubes(
                    c,
                    k,
                )[i] == var_cube_seq(c.len(), p, lit_opposite(c[p - 1])),
    decreases k,
{
    if k > 0 {
        lemma_complement_cubes_shape(c, k - 1);
        let rest = complement_cubes(c, k - 1);
        let cur = complement_cubes(c, k);
        assert forall|i: int| 0 <= i < cur.len() implies (#[trigger] cur[i]).len() == c.len() by {
            if i < rest.len() {
                assert(cur[i] == rest[i]);
            } else {
                assert(c[k - 1] != Literal::Dontcare);
                assert(cur[i] == var_cube_seq(c.len(), k, lit_opposite(c[k - 1])));
            }
        }
        assert forall|i: int| 0 <= i < cur.len() implies exists|p: int|
            1 <= p <= k && #[trigger] c[p - 1] != Literal::Dontcare && #[trigger] cur[i]
                == var_cube_seq(c.len(), p, lit_opposite(c[p - 1])) by {
            if i < rest.len() {
                assert(cur[i] == rest[i]);
                let p = choose|p: int|
                    1 <= p <= k - 1 && #[trigger] c[p - 1] != Literal::Dontcare && #[trigger] rest[i]
                        == var_cube_seq(c.len(), p, lit_opposite(c[p - 1]));
                assert(1 <= p <= k && c[p - 1] != Literal::Dontcare && cur[i] == var_cube_seq(
                    c.len(),
                    p,
                    lit_opposite(c[p - 1]),
                ));
            } else {
                assert(c[k - 1] != Literal::Dontcare);
                assert(cur[i] == var_cube_seq(c.len(), k, lit_opposite(c[k - 1])));
                assert(1 <= k <= k && c[k - 1] != Literal::Dontcare && cur[i] == var_cube_seq(
                    c.len(),
                    k,
                    lit_opposite(c[k - 1]),
                ));
            }
        }
    }
}

/// A single-literal cube is true exactly when its one literal is.
pub proof fn lemma_var_cube_eval(n: nat, v: int, l: Literal, a: Seq<bool>)
    requires
        1 <= v <= n,
        a.len() == n,
    ensures
        cube_eval(var_cube_seq(n, v, l), a) == lit_eval(l, a[v - 1]),
{
    let vc = var_cube_seq(n, v, l);
    assert(vc[v - 1] == l);
    if lit_eval(l, a[v - 1]) {
        assert forall|i: int| 0 <= i < vc.len() implies lit_eval(#[trigger] vc[i], a[i]) by {
            if i != v - 1 {
                assert(vc[i] == Literal::Dontcare);
            }
        }
    }
}

/// De Morgan's law for one product term: the complement family of a cube
/// is true exactly where the cube is false.
pub proof fn lemma_cube_complement_eval(c: Seq<Literal>, k: int, a: Seq<bool>)
    requires
        0 <= k <= c.len(),
        a.len() == c.len(),
    ensures
        fam_eval(complement_cubes(c, k), a) == (exists|i: int|
            0 <= i < k && !lit_eval(#[trigger] c[i], a[i])),
    decreases k,
{
    if k > 0 {
        lemma_cube_complement_eval(c, k - 1, a);
        let p = complement_cubes(c, k - 1);
        if c[k - 1] == Literal::Dontcare {
            assert(lit_eval(c[k - 1], a[k - 1]));
            assert((exists|i: int| 0 <= i < k && !lit_eval(#[trigger] c[i], a[i])) == (exists|i: int|
                0 <= i < k - 1 && !lit_eval(#[trigger] c[i], a[i]))) by {
                if exists|i: int| 0 <= i < k && !lit_eval(#[trigger] c[i], a[i]) {
                    let i = choose|i: int| 0 <= i < k && !lit_eval(#[trigger] c[i], a[i]);
                    assert(i < k - 1);
                }
            }
        } else {
            let vc = var_cube_seq(c.len(), k, lit_opposite(c[k - 1]));
            lemma_fam_eval_push(p, vc, a);
            lemma_var_cube_eval(c.len(), k, lit_opposite(c[k - 1]), a);
            assert(lit_eval(lit_opposite(c[k - 1]), a[k - 1]) == !lit_eval(c[k - 1], a[k - 1]));
            assert((exists|i: int| 0 <= i < k && !lit_eval(#[trigger] c[i], a[i])) == ((exists|
            i: int|
                0 <= i < k - 1 && !lit_eval(#[trigger] c[i], a[i])) || !lit_eval(
                c[k - 1],
                a[k - 1],
            ))) by {
                if exists|i: int| 0 <= i < k && !lit_eval(#[trigger] c[i], a[i]) {
                    let i = choose|i: int| 0 <= i < k && !lit_eval(#[trigger] c[i], a[i]);
                    assert(i < k - 1 || i == k - 1);
                }
            }
        }
    }
}

/// The complement family of a whole cube is its pointwise negation.
pub proof fn lemma_cube_complement_eval_full(c: Seq<Literal>, a: Seq<bool>)
    requires
        a.len() == c.len(),
    ensures
        fam_eval(complement_cubes(c, c.len() as int), a) == !cube_eval(c, a),
{
    lemma_cube_complement_eval(c, c.len() as int, a);
}

/// Membership in a deduplicating union: a cube stands in `fam_or(a, b, k)`
/// exactly when it stands in `a` or among the first `k` cubes of `b`.
pub proof fn lemma_fam_or_membership(
    a: Seq<Seq<Literal>>,
    b: Seq<Seq<Literal>>,
    k: int,
    x: Seq<Literal>,
)
    requires
        0 <= k <= b.len(),
    ensures
        fam_or(a, b, k).contains(x) == (a.contains(x) || exists|i: int| 0 <= i < k && b[i] == x),
    decreases k,
{
    if k > 0 {
        lemma_fam_or_membership(a, b, k - 1, x);
        let p = fam_or(a, b, k - 1);
        let q = fam_or(a, b, k);
        if p.contains(b[k - 1]) {
            if exists|i: int| 0 <= i < k && b[i] == x {
                let i = choose|i: int| 0 <= i < k && b[i] == x;
                if i == k - 1 {
                    assert(p.contains(x));
                }
                assert(q.contains(x));
            }
        } else {
            assert(q == p.push(b[k - 1]));
            if q.contains(x) {
                let i = choose|i: int| 0 <= i < q.len() && q[i] == x;
                if i < p.len() {
                    assert(p[i] == x);
                    assert(p.contains(x));
                } else {
                    assert(x == b[k - 1]);
                }
            }
            if p.contains(x) {
                let i = choose|i: int| 0 <= i < p.len() && p[i] == x;
                assert(q[i] == x);
                assert(q.contains(x));
            }
            if x == b[k - 1] {
                assert(q[q.len() - 1] == x);
                assert(q.contains(x));
            }
        }
    }
}

/// The deduplicating union denotes the disjunction of the two functions.
pub proof fn lemma_fam_or_eval(a: Seq<Seq<Literal>>, b: Seq<Seq<Literal>>, k: int, s: Seq<bool>)
    requires
        0 <= k <= b.len(),
    ensures
        fam_eval(fam_or(a, b, k), s) == (fam_eval(a, s) || exists|i: int|
            0 <= i < k && cube_eval(#[trigger] b[i], s)),
    decreases k,
{
    if k > 0 {
        lemma_fam_or_eval(a, b, k - 1, s);
        let p = fam_or(a, b, k - 1);
        if p.contains(b[k - 1]) {
            if cube_eval(b[k - 1], s) {
                let i = choose|i: int| 0 <= i < p.len() && p[i] == b[k - 1];
                assert(cube_eval(p[i], s));
                assert(fam_eval(p, s));
            }
        } else {
            lemma_fam_eval_push(p, b[k - 1], s);
        }
        assert((exists|i: int| 0 <= i < k && cube_eval(#[trigger] b[i], s)) == ((exists|i: int|
            0 <= i < k - 1 && cube_eval(#[trigger] b[i], s)) || cube_eval(b[k - 1], s))) by {
            if exists|i: int| 0 <= i < k && cube_eval(#[trigger] b[i], s) {
                let i = choose|i: int| 0 <= i < k && cube_eval(#[trigger] b[i], s);
                assert(i < k - 1 || i == k - 1);
            }
        }
    }
}

/// Conjunction of two cubes, pointwise: where they are compatible the
/// conjunction cube captures exactly the assignments both accept, and where
/// they conflict no assignment satisfies both.
pub proof fn lemma_cube_and_eval(c: Seq<Literal>, d: Seq<Literal>, s: Seq<bool>)
    requires
        c.len() == d.len(),
        s.len() == c.len(),
    ensures
        cube_compatible(c, d) ==> cube_eval(cube_and_seq(c, d), s) == (cube_eval(c, s) && cube_eval(
            d,
            s,
        )),
        !cube_compatible(c, d) ==> !(cube_eval(c, s) && cube_eval(d, s)),
{
    let cd = cube_and_seq(c, d);
    if cube_compatible(c, d) {
        if cube_eval(cd, s) {
            assert forall|i: int| 0 <= i < c.len() implies lit_eval(#[trigger] c[i], s[i]) by {
                assert(lit_eval(cd[i], s[i]));
                assert(cd[i] == lit_and(c[i], d[i]));
                assert(lit_compatible(c[i], d[i]));
            }
            assert forall|i: int| 0 <= i < d.len() implies lit_eval(#[trigger] d[i], s[i]) by {
                assert(lit_eval(cd[i], s[i]));
                assert(cd[i] == lit_and(c[i], d[i]));
                assert(lit_compatible(c[i], d[i]));
            }
            assert(cube_eval(c, s));
            assert(cube_eval(d, s));
        }
        if cube_eval(c, s) && cube_eval(d, s) {
            assert forall|i: int| 0 <= i < cd.len() implies lit_eval(#[trigger] cd[i], s[i]) by {
                assert(lit_eval(c[i], s[i]));
                assert(lit_eval(d[i], s[i]));
                assert(cd[i] == lit_and(c[i], d[i]));
            }
        }
    } else {
        if cube_eval(c, s) && cube_eval(d, s) {
            let i = choose|i: int| 0 <= i < c.len() && !lit_compatible(#[trigger] c[i], d[i]);
            assert(lit_eval(c[i], s[i]));
            assert(lit_eval(d[i], s[i]));
            assert(false);
        }
    }
}

/// Membership in one row of the cube-family product.
pub proof fn lemma_fam_and_row_membership(
    acc: Seq<Seq<Literal>>,
    c: Seq<Literal>,
    b: Seq<Seq<Literal>>,
    k: int,
    x: Seq<Literal>,
)
    requires
        0 <= k <= b.len(),
    ensures
        fam_and_row(acc, c, b, k).contains(x) == (acc.contains(x) || exists|j: int|
            0 <= j < k && cube_compatible(c, #[trigger] b[j]) && x == cube_and_seq(c, b[j])),
    decreases k,
{
    if k > 0 {
        lemma_fam_and_row_membership(acc, c, b, k - 1, x);
        let p = fam_and_row(acc, c, b, k - 1);
        let q = fam_and_row(acc, c, b, k);
        if cube_compatible(c, b[k - 1]) && !p.contains(cube_and_seq(c, b[k - 1])) {
            assert(q == p.push(cube_and_seq(c, b[k - 1])));
            if q.contains(x) {
                let i = choose|i: int| 0 <= i < q.len() && q[i] == x;
                if i < p.len() {
                    assert(p[i] == x);
                    assert(p.contains(x));
                } else {
                    assert(x == cube_and_seq(c, b[k - 1]));
                    assert(cube_compatible(c, b[k - 1]) && x == cube_and_seq(c, b[k - 1]));
                }
            }
            if p.contains(x) {
                let i = choose|i: int| 0 <= i < p.len() && p[i] == x;
                assert(q[i] == x);
                assert(q.contains(x));
            }
            if x == cube_and_seq(c, b[k - 1]) {
                assert(q[q.len() - 1] == x);
                assert(q.contains(x));
            }
        } else {
            if exists|j: int|
                0 <= j < k && cube_compatible(c, #[trigger] b[j]) && x == cube_and_seq(c, b[j]) {
                let j = choose|j: int|
                    0 <= j < k && cube_compatible(c, #[trigger] b[j]) && x == cube_and_seq(c, b[j]);
                if j == k - 1 {
                    assert(p.contains(x));
                }
                assert(q.contains(x));
            }
        }
    }
}

/// Membership in the cube-family product: exactly the conjunctions of a
/// compatible pair, one cube from each side.
pub proof fn lemma_fam_and_membership(
    a: Seq<Seq<Literal>>,
    b: Seq<Seq<Literal>>,
    k: int,
    x: Seq<Literal>,
)
    requires
        0 <= k <= a.len(),
    ensures
        fam_and(a, b, k).contains(x) == (exists|i: int, j: int|
            0 <= i < k && 0 <= j < b.len() && cube_compatible(#[trigger] a[i], #[trigger] b[j]) && x
                == cube_and_seq(a[i], b[j])),
    decreases k,
{
    if k > 0 {
        lemma_fam_and_membership(a, b, k - 1, x);
        lemma_fam_and_row_membership(fam_and(a, b, k - 1), a[k - 1], b, b.len() as int, x);
        if fam_and(a, b, k).contains(x) {
            if fam_and(a, b, k - 1).contains(x) {
                let (i, j) = choose|i: int, j: int|
                    0 <= i < k - 1 && 0 <= j < b.len() && cube_compatible(
                        #[trigger] a[i],
                        #[trigger] b[j],
                    ) && x == cube_and_seq(a[i], b[j]);
                assert(0 <= i < k && 0 <= j < b.len() && cube_compatible(a[i], b[j]) && x
                    == cube_and_seq(a[i], b[j]));
            } else {
                let j = choose|j: int|
                    0 <= j < b.len() && cube_compatible(a[k - 1], #[trigger] b[j]) && x
                        == cube_and_seq(a[k - 1], b[j]);
                assert(0 <= k - 1 < k && 0 <= j < b.len() && cube_compatible(a[k - 1], b[j]) && x
                    == cube_and_seq(a[k - 1], b[j]));
            }
        }
        if exists|i: int, j: int|
            0 <= i < k && 0 <= j < b.len() && cube_compatible(#[trigger] a[i], #[trigger] b[j]) && x
                == cube_and_seq(a[i], b[j]) {
            let (i, j) = choose|i: int, j: int|
                0 <= i < k && 0 <= j < b.len() && cube_compatible(#[trigger] a[i], #[trigger] b[j])
                    && x == cube_and_seq(a[i], b[j]);
            if i < k - 1 {
                assert(fam_and(a, b, k - 1).contains(x));
            }
            assert(fam_and(a, b, k).contains(x));
        }
    }
}

/// The cube-family product denotes the conjunction of the two functions.
pub proof fn lemma_fam_and_eval(a: Seq<Seq<Literal>>, b: Seq<Seq<Literal>>, n: nat, s: Seq<bool>)
    requires
        fam_wf(a, n),
        fam_wf(b, n),
        s.len() == n,
    ensures
        fam_eval(fam_and(a, b, a.len() as int), s) == (fam_eval(a, s) && fam_eval(b, s)),
{
    let prod = fam_and(a, b, a.len() as int);
    if fam_eval(prod, s) {
        let i = choose|i: int| 0 <= i < prod.len() && cube_eval(#[trigger] prod[i], s);
        assert(prod.contains(prod[i]));
        lemma_fam_and_membership(a, b, a.len() as int, prod[i]);
        let (p, q) = choose|p: int, q: int|
            0 <= p < a.len() && 0 <= q < b.len() && cube_compatible(#[trigger] a[p], #[trigger] b[q])
                && prod[i] == cube_and_seq(a[p], b[q]);
        lemma_cube_and_eval(a[p], b[q], s);
        assert(cube_eval(a[p], s) && cube_eval(b[q], s));
        assert(fam_eval(a, s));
        assert(fam_eval(b, s));
    }
    if fam_eval(a, s) && fam_eval(b, s) {
        let p = choose|p: int| 0 <= p < a.len() && cube_eval(#[trigger] a[p], s);
        let q = choose|q: int| 0 <= q < b.len() && cube_eval(#[trigger] b[q], s);
        lemma_cube_and_eval(a[p], b[q], s);
        assert(cube_compatible(a[p], b[q]));
        let x = cube_and_seq(a[p], b[q]);
        lemma_fam_and_membership(a, b, a.len() as int, x);
        assert(prod.contains(x));
        let i = choose|i: int| 0 <= i < prod.len() && prod[i] == x;
        assert(cube_eval(prod[i], s));
        assert(fam_eval(prod, s));
    }
}

} // verus!
