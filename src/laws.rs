//! Properties of inference, maps and expression equality, stated over the
//! models and proved.
use vstd::prelude::*;
use crate::types::{Ty, ty_cmp, tys_sorted, canonical, lemma_ty_cmp, lemma_ty_cmp_trans, lemma_canonical};
use crate::value::{
    Val, infer, infer_all, val_hash, map_wf, entries_of, pairs_map, lemma_mapping_unique,
};
use crate::expr::{ExprModel, expr_eq};

verus! {

/// `s` with `x` put in its place in the canonical order (left out if present).
pub open spec fn sorted_insert(s: Seq<Ty>, x: Ty) -> Seq<Ty>
    decreases s.len(),
{
    if s.len() == 0 {
        seq![x]
    } else if ty_cmp(x, s[0]) < 0 {
        seq![x] + s
    } else if ty_cmp(x, s[0]) == 0 {
        s
    } else {
        seq![s[0]] + sorted_insert(s.subrange(1, s.len() as int), x)
    }
}

proof fn lemma_sorted_insert(s: Seq<Ty>, x: Ty)
    requires
        tys_sorted(s),
    ensures
        tys_sorted(sorted_insert(s, x)),
        sorted_insert(s, x).to_set() == s.to_set().insert(x),
    decreases s.len(),
{
    let r = sorted_insert(s, x);
    if s.len() == 0 {
        assert(r.to_set() =~= s.to_set().insert(x)) by {
            assert(r[0] == x);
        }
    } else {
        lemma_ty_cmp(x, s[0]);
        let t = s.subrange(1, s.len() as int);
        assert(s =~= seq![s[0]] + t);
        if ty_cmp(x, s[0]) < 0 {
            assert forall|i: int, j: int| 0 <= i < j < r.len() implies ty_cmp(
                #[trigger] r[i],
                #[trigger] r[j],
            ) < 0 by {
                if i == 0 && j > 1 {
                    lemma_ty_cmp_trans(x, s[0], s[j - 1]);
                }
                if i > 0 {
                    assert(r[i] == s[i - 1] && r[j] == s[j - 1]);
                }
            }
            assert forall|y: Ty| r.to_set().contains(y) <==> s.to_set().insert(x).contains(y) by {
                if s.to_set().contains(y) {
                    let k = choose|k: int| 0 <= k < s.len() && s[k] == y;
                    assert(r[k + 1] == y);
                }
                if r.to_set().contains(y) {
                    let k = choose|k: int| 0 <= k < r.len() && r[k] == y;
                    if k > 0 {
                        assert(s[k - 1] == y);
                    }
                }
                assert(r[0] == x);
            }
            assert(r.to_set() =~= s.to_set().insert(x));
        } else if ty_cmp(x, s[0]) == 0 {
            assert(s.to_set().contains(s[0]));
            assert(r.to_set() =~= s.to_set().insert(x));
        } else {
            assert forall|i: int, j: int| 0 <= i < j < t.len() implies ty_cmp(
                #[trigger] t[i],
                #[trigger] t[j],
            ) < 0 by {
                assert(t[i] == s[i + 1] && t[j] == s[j + 1]);
            }
            lemma_sorted_insert(t, x);
            let u = sorted_insert(t, x);
            assert(r =~= seq![s[0]] + u);
            assert forall|y: Ty| u.to_set().contains(y) implies ty_cmp(s[0], y) < 0 by {
                assert(t.to_set().insert(x).contains(y));
                if y != x {
                    let k = choose|k: int| 0 <= k < t.len() && t[k] == y;
                    assert(s[k + 1] == y);
                }
            }
            assert forall|i: int, j: int| 0 <= i < j < r.len() implies ty_cmp(
                #[trigger] r[i],
                #[trigger] r[j],
            ) < 0 by {
                if i == 0 {
                    assert(r[j] == u[j - 1]);
                    assert(u.to_set().contains(u[j - 1]));
                } else {
                    assert(r[i] == u[i - 1] && r[j] == u[j - 1]);
                }
            }
            assert forall|y: Ty| r.to_set().contains(y) <==> s.to_set().insert(x).contains(y) by {
                if s.to_set().contains(y) {
                    let k = choose|k: int| 0 <= k < s.len() && s[k] == y;
                    if k == 0 {
                        assert(r[0] == y);
                    } else {
                        assert(t[k - 1] == y);
                        assert(u.to_set().contains(y));
                        let m = choose|m: int| 0 <= m < u.len() && u[m] == y;
                        assert(r[m + 1] == y);
                    }
                }
                if y == x {
                    assert(u.to_set().contains(y));
                    let m = choose|m: int| 0 <= m < u.len() && u[m] == y;
                    assert(r[m + 1] == y);
                }
                if r.to_set().contains(y) {
                    let k = choose|k: int| 0 <= k < r.len() && r[k] == y;
                    if k > 0 {
                        assert(u[k - 1] == y);
                        assert(u.to_set().contains(y));
                        if y != x {
                            assert(t.to_set().contains(y));
                            let m = choose|m: int| 0 <= m < t.len() && t[m] == y;
                            assert(s[m + 1] == y);
                        }
                    }
                }
            }
            assert(r.to_set() =~= s.to_set().insert(x));
        }
    }
}

/// Every finite collection of types has a canonical form: a sorted sequence
/// of exactly its members.
pub proof fn lemma_canonical_exists(c: Seq<Ty>)
    ensures
        tys_sorted(canonical(c.to_set())),
        canonical(c.to_set()).to_set() == c.to_set(),
    decreases c.len(),
{
    if c.len() == 0 {
        assert(tys_sorted(Seq::<Ty>::empty()));
        assert(Seq::<Ty>::empty().to_set() =~= c.to_set());
        lemma_canonical(Seq::<Ty>::empty());
    } else {
        let p = c.subrange(0, c.len() - 1);
        let x = c[c.len() - 1];
        lemma_canonical_exists(p);
        let d = canonical(p.to_set());
        lemma_sorted_insert(d, x);
        assert(c =~= p.push(x));
        p.lemma_push_to_set_commute(x);
        lemma_canonical(sorted_insert(d, x));
    }
}

/// Canonicalising is idempotent: the canonical form of the members of a
/// canonical form is that form itself.
pub proof fn lemma_canonical_idempotent(c: Seq<Ty>)
    ensures
        canonical(canonical(c.to_set()).to_set()) == canonical(c.to_set()),
{
    lemma_canonical_exists(c);
    lemma_canonical(canonical(c.to_set()));
}

pub proof fn lemma_infer_all(s: Seq<Val>)
    ensures
        infer_all(s).len() == s.len(),
        forall|i: int| 0 <= i < s.len() ==> #[trigger] infer_all(s)[i] == infer(s[i]),
    decreases s.len(),
{
    if s.len() > 0 {
        lemma_infer_all(s.subrange(0, s.len() - 1));
    }
}

/// The types of a collection depend only on which members it has.
proof fn lemma_infer_all_set(s1: Seq<Val>, s2: Seq<Val>)
    requires
        s1.to_set() == s2.to_set(),
    ensures
        infer_all(s1).to_set() == infer_all(s2).to_set(),
{
    lemma_infer_all(s1);
    lemma_infer_all(s2);
    assert forall|t: Ty| infer_all(s1).to_set().contains(t) implies infer_all(s2).to_set().contains(t) by {
        let i = choose|i: int| 0 <= i < s1.len() && infer_all(s1)[i] == t;
        assert(s1.to_set().contains(s1[i]));
        let j = choose|j: int| 0 <= j < s2.len() && s2[j] == s1[i];
        assert(infer_all(s2)[j] == t);
    }
    assert forall|t: Ty| infer_all(s2).to_set().contains(t) implies infer_all(s1).to_set().contains(t) by {
        let i = choose|i: int| 0 <= i < s2.len() && infer_all(s2)[i] == t;
        assert(s2.to_set().contains(s2[i]));
        let j = choose|j: int| 0 <= j < s1.len() && s1[j] == s2[i];
        assert(infer_all(s1)[j] == t);
    }
    assert(infer_all(s1).to_set() =~= infer_all(s2).to_set());
}

/// The type of a list does not depend on the order of its items or on how
/// often each occurs: `[1, 2, 2, 3]` and `[3, 2, 1]` have the same type.
pub proof fn lemma_list_type_order_independent(s1: Seq<Val>, s2: Seq<Val>)
    requires
        s1.to_set() == s2.to_set(),
    ensures
        infer(Val::List(s1)) == infer(Val::List(s2)),
{
    lemma_infer_all_set(s1, s2);
}

/// A type whose member lists, at every depth, are sorted and free of duplicates.
pub open spec fn ty_canonical(t: Ty) -> bool
    decreases t,
{
    match t {
        Ty::List(c) => tys_sorted(c) && forall|i: int| 0 <= i < c.len() ==> ty_canonical(#[trigger] c[i]),
        Ty::Mapping(k, w) => tys_sorted(k) && tys_sorted(w) && (forall|i: int|
            0 <= i < k.len() ==> ty_canonical(#[trigger] k[i])) && (forall|i: int|
            0 <= i < w.len() ==> ty_canonical(#[trigger] w[i])),
        _ => true,
    }
}

proof fn lemma_members_canonical(s: Seq<Val>)
    requires
        forall|i: int| 0 <= i < s.len() ==> ty_canonical(infer(#[trigger] s[i])),
    ensures
        tys_sorted(canonical(infer_all(s).to_set())),
        canonical(infer_all(s).to_set()).to_set() == infer_all(s).to_set(),
        forall|i: int|
            0 <= i < canonical(infer_all(s).to_set()).len() ==> ty_canonical(
                #[trigger] canonical(infer_all(s).to_set())[i],
            ),
{
    let c = canonical(infer_all(s).to_set());
    lemma_canonical_exists(infer_all(s));
    lemma_infer_all(s);
    assert forall|i: int| 0 <= i < c.len() implies ty_canonical(#[trigger] c[i]) by {
        assert(c.to_set().contains(c[i]));
        let j = choose|j: int| 0 <= j < infer_all(s).len() && infer_all(s)[j] == c[i];
        assert(infer(s[j]) == c[i]);
    }
}

/// Inferred types are in canonical form at every depth.
pub proof fn lemma_infer_canonical(v: Val)
    ensures
        ty_canonical(infer(v)),
    decreases v,
{
    match v {
        Val::List(s) => {
            assert forall|i: int| 0 <= i < s.len() implies ty_canonical(infer(#[trigger] s[i])) by {
                lemma_infer_canonical(s[i]);
            }
            lemma_members_canonical(s);
        },
        Val::Mapping(k, w) => {
            assert forall|i: int| 0 <= i < k.len() implies ty_canonical(infer(#[trigger] k[i])) by {
                lemma_infer_canonical(k[i]);
            }
            assert forall|i: int| 0 <= i < w.len() implies ty_canonical(infer(#[trigger] w[i])) by {
                lemma_infer_canonical(w[i]);
            }
            lemma_members_canonical(k);
            lemma_members_canonical(w);
        },
        _ => {},
    }
}


/// No two pairs share a key.
pub open spec fn distinct_keys(p: Seq<(Val, Val)>) -> bool {
    forall|i: int, j: int| 0 <= i < p.len() && 0 <= j < p.len() && i != j ==> (#[trigger] p[i]).0 != (#[trigger] p[j]).0
}

proof fn lemma_pairs_map_distinct(p: Seq<(Val, Val)>)
    requires
        distinct_keys(p),
    ensures
        forall|k: Val| #[trigger] pairs_map(p).contains_key(k) <==> exists|i: int| 0 <= i < p.len() && p[i].0 == k,
        forall|i: int| 0 <= i < p.len() ==> #[trigger] pairs_map(p)[p[i].0] == p[i].1,
    decreases p.len(),
{
    if p.len() > 0 {
        let q = p.subrange(0, p.len() - 1);
        assert forall|i: int, j: int| 0 <= i < q.len() && 0 <= j < q.len() && i != j implies (#[trigger] q[i]).0 != (#[trigger] q[j]).0 by {
            assert(q[i] == p[i] && q[j] == p[j]);
        }
        lemma_pairs_map_distinct(q);
        assert forall|k: Val| #[trigger] pairs_map(p).contains_key(k) <==> exists|i: int| 0 <= i < p.len() && p[i].0 == k by {
            if pairs_map(q).contains_key(k) {
                let i = choose|i: int| 0 <= i < q.len() && q[i].0 == k;
                assert(p[i].0 == k);
            }
            if exists|i: int| 0 <= i < p.len() && p[i].0 == k {
                let i = choose|i: int| 0 <= i < p.len() && p[i].0 == k;
                if i < p.len() - 1 {
                    assert(q[i].0 == k);
                }
            }
        }
        assert forall|i: int| 0 <= i < p.len() implies #[trigger] pairs_map(p)[p[i].0] == p[i].1 by {
            let last = p[p.len() - 1];
            assert(pairs_map(p) == pairs_map(q).insert(last.0, last.1));
            if i < p.len() - 1 {
                assert(q[i] == p[i]);
                assert(p[i].0 != p[p.len() - 1].0);
                assert(pairs_map(q)[q[i].0] == q[i].1);
            }
        }
    }
}

/// Inserting the same key-value pairs, with distinct keys, in two different
/// orders gives the same entries.
pub proof fn lemma_insertion_order_irrelevant(first: Seq<(Val, Val)>, second: Seq<(Val, Val)>)
    requires
        distinct_keys(first),
        distinct_keys(second),
        first.to_set() == second.to_set(),
    ensures
        pairs_map(first) == pairs_map(second),
{
    lemma_pairs_map_distinct(first);
    lemma_pairs_map_distinct(second);
    assert forall|k: Val| #[trigger] pairs_map(first).contains_key(k) implies pairs_map(second).contains_key(k) && pairs_map(first)[k] == pairs_map(second)[k] by {
        let i = choose|i: int| 0 <= i < first.len() && first[i].0 == k;
        assert(first.to_set().contains(first[i]));
        let j = choose|j: int| 0 <= j < second.len() && second[j] == first[i];
        assert(pairs_map(first)[first[i].0] == first[i].1);
        assert(pairs_map(second)[second[j].0] == second[j].1);
    }
    assert forall|k: Val| #[trigger] pairs_map(second).contains_key(k) implies pairs_map(first).contains_key(k) by {
        let j = choose|j: int| 0 <= j < second.len() && second[j].0 == k;
        assert(second.to_set().contains(second[j]));
        let i = choose|i: int| 0 <= i < first.len() && first[i] == second[j];
        assert(first[i].0 == k);
    }
    assert forall|k: Val| #[trigger] pairs_map(first).dom().contains(k) == pairs_map(second).dom().contains(k) by {
        if pairs_map(first).contains_key(k) {
            assert(pairs_map(second).contains_key(k));
        }
        if pairs_map(second).contains_key(k) {
            assert(pairs_map(first).contains_key(k));
        }
    }
    assert(pairs_map(first).dom() =~= pairs_map(second).dom());
    assert(pairs_map(first) =~= pairs_map(second));
}

/// Two mappings with the same entries are the same value, so they are equal
/// and hash equally, whatever order the entries were inserted in.
pub proof fn lemma_equal_entries_equal_maps(k1: Seq<Val>, w1: Seq<Val>, k2: Seq<Val>, w2: Seq<Val>)
    requires
        map_wf(k1, w1),
        map_wf(k2, w2),
        entries_of(k1, w1) == entries_of(k2, w2),
    ensures
        Val::Mapping(k1, w1) == Val::Mapping(k2, w2),
        val_hash(Val::Mapping(k1, w1)) == val_hash(Val::Mapping(k2, w2)),
{
    lemma_mapping_unique(k1, w1, k2, w2);
}

/// Declarations with the same name and types are equal, whatever values
/// they bind.
pub proof fn lemma_var_equality_ignores_value(name: Seq<char>, types: Seq<Ty>, a: ExprModel, b: ExprModel)
    ensures
        expr_eq(ExprModel::Var(name, types, Box::new(a)), ExprModel::Var(name, types, Box::new(b))),
{
}

} // verus!
