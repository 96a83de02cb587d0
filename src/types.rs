//! Structural types and their canonical (deduplicated, sorted) unions.
use vstd::prelude::*;

verus! {

/// Mathematical model of a [`Type`].
pub enum Ty {
    Bool,
    Integer,
    String,
    List(Seq<Ty>),
    Mapping(Seq<Ty>, Seq<Ty>),
}

/// Position of a variant in the canonical order.
pub open spec fn ty_tag(t: Ty) -> int {
    match t {
        Ty::Bool => 0,
        Ty::Integer => 1,
        Ty::String => 2,
        Ty::List(_) => 3,
        Ty::Mapping(_, _) => 4,
    }
}

/// The canonical order on types: by variant, then lexicographically by members.
/// Returns -1, 0 or 1.
pub open spec fn ty_cmp(a: Ty, b: Ty) -> int
    decreases a,
{
    match a {
        Ty::List(x) => match b {
            Ty::List(y) => tys_cmp(x, y),
            _ => if ty_tag(a) < ty_tag(b) { -1 } else { 1 },
        },
        Ty::Mapping(k1, v1) => match b {
            Ty::Mapping(k2, v2) => {
                let c = tys_cmp(k1, k2);
                if c != 0 {
                    c
                } else {
                    tys_cmp(v1, v2)
                }
            },
            _ => 1,
        },
        _ => if ty_tag(a) < ty_tag(b) {
            -1
        } else if ty_tag(a) > ty_tag(b) {
            1
        } else {
            0
        },
    }
}

/// Lexicographic order on sequences of types; a proper prefix comes first.
pub open spec fn tys_cmp(s: Seq<Ty>, t: Seq<Ty>) -> int
    decreases s,
{
    if s.len() == 0 {
        if t.len() == 0 {
            0
        } else {
            -1
        }
    } else if t.len() == 0 {
        1
    } else {
        let c = ty_cmp(s[0], t[0]);
        if c != 0 {
            c
        } else {
            tys_cmp(s.subrange(1, s.len() as int), t.subrange(1, t.len() as int))
        }
    }
}

/// Strictly increasing in the canonical order (hence free of duplicates).
pub open spec fn tys_sorted(s: Seq<Ty>) -> bool {
    forall|i: int, j: int| 0 <= i < j < s.len() ==> ty_cmp(#[trigger] s[i], #[trigger] s[j]) < 0
}

/// The canonical form of a union: the sorted sequence of its distinct members.
pub open spec fn canonical(members: Set<Ty>) -> Seq<Ty> {
    choose|c: Seq<Ty>| tys_sorted(c) && c.to_set() == members
}

pub proof fn lemma_ty_cmp(a: Ty, b: Ty)
    ensures
        -1 <= ty_cmp(a, b) <= 1,
        ty_cmp(a, b) == -ty_cmp(b, a),
        ty_cmp(a, b) == 0 <==> a == b,
    decreases a,
{
    match a {
        Ty::List(x) => match b {
            Ty::List(y) => lemma_tys_cmp(x, y),
            _ => {},
        },
        Ty::Mapping(k1, v1) => match b {
            Ty::Mapping(k2, v2) => {
                lemma_tys_cmp(k1, k2);
                lemma_tys_cmp(v1, v2);
            },
            _ => {},
        },
        _ => {},
    }
}

pub proof fn lemma_tys_cmp(s: Seq<Ty>, t: Seq<Ty>)
    ensures
        -1 <= tys_cmp(s, t) <= 1,
        tys_cmp(s, t) == -tys_cmp(t, s),
        tys_cmp(s, t) == 0 <==> s == t,
    decreases s,
{
    if s.len() > 0 && t.len() > 0 {
        let s1 = s.subrange(1, s.len() as int);
        let t1 = t.subrange(1, t.len() as int);
        lemma_ty_cmp(s[0], t[0]);
        lemma_tys_cmp(s1, t1);
        if s[0] == t[0] && s1 == t1 {
            assert(s =~= seq![s[0]] + s1);
            assert(t =~= seq![t[0]] + t1);
        }
        if s == t {
            assert(s1 == t1);
        }
    } else if s.len() == 0 && t.len() == 0 {
        assert(s =~= t);
    }
}

pub proof fn lemma_ty_cmp_trans(a: Ty, b: Ty, c: Ty)
    requires
        ty_cmp(a, b) < 0,
        ty_cmp(b, c) < 0,
    ensures
        ty_cmp(a, c) < 0,
    decreases a,
{
    match (a, b, c) {
        (Ty::List(x), Ty::List(y), Ty::List(z)) => lemma_tys_cmp_trans(x, y, z),
        (Ty::Mapping(k1, v1), Ty::Mapping(k2, v2), Ty::Mapping(k3, v3)) => {
            lemma_tys_cmp(k1, k2);
            lemma_tys_cmp(k2, k3);
            if tys_cmp(k1, k2) < 0 && tys_cmp(k2, k3) < 0 {
                lemma_tys_cmp_trans(k1, k2, k3);
            }
            if tys_cmp(k1, k2) == 0 && tys_cmp(k2, k3) == 0 {
                lemma_tys_cmp_trans(v1, v2, v3);
            }
        },
        _ => {},
    }
}

pub proof fn lemma_tys_cmp_trans(s: Seq<Ty>, t: Seq<Ty>, u: Seq<Ty>)
    requires
        tys_cmp(s, t) < 0,
        tys_cmp(t, u) < 0,
    ensures
        tys_cmp(s, u) < 0,
    decreases s,
{
    if s.len() > 0 && t.len() > 0 && u.len() > 0 {
        lemma_ty_cmp(s[0], t[0]);
        lemma_ty_cmp(t[0], u[0]);
        if ty_cmp(s[0], t[0]) < 0 && ty_cmp(t[0], u[0]) < 0 {
            lemma_ty_cmp_trans(s[0], t[0], u[0]);
        }
        if ty_cmp(s[0], t[0]) == 0 && ty_cmp(t[0], u[0]) == 0 {
            lemma_tys_cmp_trans(
                s.subrange(1, s.len() as int),
                t.subrange(1, t.len() as int),
                u.subrange(1, u.len() as int),
            );
        }
    }
}


/// Two sorted sequences with the same members are the same sequence.
pub proof fn lemma_sorted_unique(c1: Seq<Ty>, c2: Seq<Ty>)
    requires
        tys_sorted(c1),
        tys_sorted(c2),
        c1.to_set() == c2.to_set(),
    ensures
        c1 == c2,
    decreases c1.len(),
{
    if c1.len() == 0 || c2.len() == 0 {
        if c1.len() > 0 {
            assert(c1.to_set().contains(c1[0]));
        }
        if c2.len() > 0 {
            assert(c2.to_set().contains(c2[0]));
        }
        assert(c1 =~= c2);
    } else {
        assert(c1.to_set().contains(c1[0]));
        assert(c2.to_set().contains(c2[0]));
        let j = choose|j: int| 0 <= j < c2.len() && c2[j] == c1[0];
        let i = choose|i: int| 0 <= i < c1.len() && c1[i] == c2[0];
        lemma_ty_cmp(c1[0], c2[0]);
        if j > 0 {
            assert(ty_cmp(c2[0], c2[j]) < 0);
            if i > 0 {
                assert(ty_cmp(c1[0], c1[i]) < 0);
            } else {
                lemma_ty_cmp(c2[j], c2[j]);
            }
        } else if i > 0 {
            assert(ty_cmp(c1[0], c1[i]) < 0);
            lemma_ty_cmp(c1[i], c1[i]);
        }
        assert(c1[0] == c2[0]);
        let t1 = c1.subrange(1, c1.len() as int);
        let t2 = c2.subrange(1, c2.len() as int);
        assert forall|x: Ty| t1.to_set().contains(x) <==> t2.to_set().contains(x) by {
            if t1.to_set().contains(x) {
                let k = choose|k: int| 0 <= k < t1.len() && t1[k] == x;
                assert(c1[k + 1] == x);
                assert(c1.to_set().contains(x));
                lemma_ty_cmp(c1[0], x);
                let m = choose|m: int| 0 <= m < c2.len() && c2[m] == x;
                assert(m != 0);
                assert(t2[m - 1] == x);
            }
            if t2.to_set().contains(x) {
                let k = choose|k: int| 0 <= k < t2.len() && t2[k] == x;
                assert(c2[k + 1] == x);
                assert(c2.to_set().contains(x));
                lemma_ty_cmp(c2[0], x);
                let m = choose|m: int| 0 <= m < c1.len() && c1[m] == x;
                assert(m != 0);
                assert(t1[m - 1] == x);
            }
        }
        assert(t1.to_set() =~= t2.to_set());
        lemma_sorted_unique(t1, t2);
        assert(c1 =~= seq![c1[0]] + t1);
        assert(c2 =~= seq![c2[0]] + t2);
    }
}

/// A sorted sequence is the canonical form of its own members.
pub proof fn lemma_canonical(c: Seq<Ty>)
    requires
        tys_sorted(c),
    ensures
        canonical(c.to_set()) == c,
{
    let d = canonical(c.to_set());
    assert(tys_sorted(d) && d.to_set() == c.to_set());
    lemma_sorted_unique(c, d);
}

/// A structural type, kept in canonical form: the members of `List` and
/// `Mapping` are distinct and sorted (the order agrees with the derived `Ord`).
#[derive(Debug, PartialOrd, Ord, Hash)]
pub enum Type {
    Bool,
    Integer,
    String,
    List(Vec<Type>),
    Mapping(Vec<Type>, Vec<Type>),
}

impl Type {
    pub open spec fn view(&self) -> Ty
        decreases self,
    {
        match self {
            Type::Bool => Ty::Bool,
            Type::Integer => Ty::Integer,
            Type::String => Ty::String,
            Type::List(v) => Ty::List(types_view(v@)),
            Type::Mapping(k, v) => Ty::Mapping(types_view(k@), types_view(v@)),
        }
    }
}

/// The models of a sequence of types.
pub open spec fn types_view(s: Seq<Type>) -> Seq<Ty>
    decreases s,
{
    if s.len() == 0 {
        Seq::empty()
    } else {
        types_view(s.subrange(0, s.len() - 1)).push(s[s.len() - 1].view())
    }
}

pub proof fn lemma_types_view(s: Seq<Type>)
    ensures
        types_view(s).len() == s.len(),
        forall|i: int| 0 <= i < s.len() ==> #[trigger] types_view(s)[i] == s[i]@,
    decreases s.len(),
{
    if s.len() > 0 {
        lemma_types_view(s.subrange(0, s.len() - 1));
    }
}

/// Sequences of types with pointwise equal models have equal models.
pub proof fn lemma_types_view_eq(s: Seq<Type>, t: Seq<Type>)
    requires
        s.len() == t.len(),
        forall|i: int| 0 <= i < s.len() ==> #[trigger] s[i]@ == t[i]@,
    ensures
        types_view(s) == types_view(t),
{
    lemma_types_view(s);
    lemma_types_view(t);
    assert(types_view(s) =~= types_view(t));
}

impl Type {
    /// Compares in the canonical order: -1, 0 or 1.
    pub fn compare(&self, other: &Type) -> (r: i8)
        ensures
            r == ty_cmp(self@, other@),
        decreases self,
    {
        proof {
            lemma_ty_cmp(self@, other@);
        }
        match self {
            Type::Bool => match other {
                Type::Bool => 0,
                _ => -1,
            },
            Type::Integer => match other {
                Type::Bool => 1,
                Type::Integer => 0,
                _ => -1,
            },
            Type::String => match other {
                Type::Bool | Type::Integer => 1,
                Type::String => 0,
                _ => -1,
            },
            Type::List(x) => match other {
                Type::List(y) => compare_types(x, y),
                Type::Mapping(_, _) => -1,
                _ => 1,
            },
            Type::Mapping(k1, v1) => match other {
                Type::Mapping(k2, v2) => {
                    let c = compare_types(k1, k2);
                    if c != 0 {
                        c
                    } else {
                        compare_types(v1, v2)
                    }
                },
                _ => 1,
            },
        }
    }

    /// A copy with the same model.
    pub fn copied(&self) -> (r: Type)
        ensures
            r@ == self@,
        decreases self,
    {
        match self {
            Type::Bool => Type::Bool,
            Type::Integer => Type::Integer,
            Type::String => Type::String,
            Type::List(x) => Type::List(copy_types(x)),
            Type::Mapping(k, v) => Type::Mapping(copy_types(k), copy_types(v)),
        }
    }
}

/// Lexicographic comparison of two sequences of types: -1, 0 or 1.
pub fn compare_types(a: &Vec<Type>, b: &Vec<Type>) -> (r: i8)
    ensures
        r == tys_cmp(types_view(a@), types_view(b@)),
    decreases a,
{
    let ghost sa = types_view(a@);
    let ghost sb = types_view(b@);
    proof {
        lemma_types_view(a@);
        lemma_types_view(b@);
        assert(sa.subrange(0, sa.len() as int) =~= sa);
        assert(sb.subrange(0, sb.len() as int) =~= sb);
    }
    let mut i: usize = 0;
    while i < a.len() && i < b.len()
        invariant
            i <= a.len(),
            i <= b.len(),
            sa == types_view(a@),
            sb == types_view(b@),
            sa.len() == a.len(),
            sb.len() == b.len(),
            forall|k: int| 0 <= k < a.len() ==> #[trigger] sa[k] == a@[k]@,
            forall|k: int| 0 <= k < b.len() ==> #[trigger] sb[k] == b@[k]@,
            tys_cmp(sa, sb) == tys_cmp(
                sa.subrange(i as int, sa.len() as int),
                sb.subrange(i as int, sb.len() as int),
            ),
        decreases a.len() - i,
    {
        let c = a[i].compare(&b[i]);
        proof {
            let ta = sa.subrange(i as int, sa.len() as int);
            let tb = sb.subrange(i as int, sb.len() as int);
            assert(ta[0] == a@[i as int]@);
            assert(tb[0] == b@[i as int]@);
            assert(ta.subrange(1, ta.len() as int) =~= sa.subrange(i + 1, sa.len() as int));
            assert(tb.subrange(1, tb.len() as int) =~= sb.subrange(i + 1, sb.len() as int));
        }
        if c != 0 {
            return c;
        }
        i = i + 1;
    }
    if i < a.len() {
        1
    } else if i < b.len() {
        -1
    } else {
        0
    }
}

impl PartialEq for Type {
    fn eq(&self, other: &Type) -> (r: bool) {
        proof {
            lemma_ty_cmp(self@, other@);
        }
        self.compare(other) == 0
    }
}

impl vstd::std_specs::cmp::PartialEqSpecImpl for Type {
    open spec fn obeys_eq_spec() -> bool {
        true
    }

    open spec fn eq_spec(&self, other: &Type) -> bool {
        self@ == other@
    }
}

impl Clone for Type {
    fn clone(&self) -> (r: Type)
        ensures
            r@ == self@,
    {
        self.copied()
    }
}

impl Eq for Type {

}

/// Whether two sequences of types have the same models.
pub fn types_equal(a: &Vec<Type>, b: &Vec<Type>) -> (r: bool)
    ensures
        r == (types_view(a@) == types_view(b@)),
{
    proof {
        lemma_tys_cmp(types_view(a@), types_view(b@));
    }
    compare_types(a, b) == 0
}

/// A copy of a sequence of types with the same models.
pub fn copy_types(a: &Vec<Type>) -> (r: Vec<Type>)
    ensures
        types_view(r@) == types_view(a@),
    decreases a,
{
    let mut r: Vec<Type> = Vec::new();
    let mut i: usize = 0;
    while i < a.len()
        invariant
            i <= a.len(),
            r.len() == i,
            forall|k: int| 0 <= k < i ==> #[trigger] r@[k]@ == a@[k]@,
        decreases a.len() - i,
    {
        r.push(a[i].copied());
        i = i + 1;
    }
    proof {
        lemma_types_view_eq(r@, a@);
    }
    r
}

/// Adds `t` to a canonical union, keeping it canonical.
pub fn insert_member(members: &mut Vec<Type>, t: Type)
    requires
        tys_sorted(types_view(old(members)@)),
    ensures
        tys_sorted(types_view(final(members)@)),
        types_view(final(members)@).to_set() == types_view(old(members)@).to_set().insert(t@),
{
    let ghost m = types_view(members@);
    proof {
        lemma_types_view(members@);
    }
    let mut i: usize = 0;
    while i < members.len()
        invariant
            i <= members.len(),
            m == types_view(members@),
            members@ == old(members)@,
            m.len() == members.len(),
            tys_sorted(m),
            forall|k: int| 0 <= k < members.len() ==> #[trigger] m[k] == members@[k]@,
            forall|k: int| 0 <= k < i ==> ty_cmp(#[trigger] m[k], t@) < 0,
        decreases members.len() - i,
    {
        let c = t.compare(&members[i]);
        proof {
            lemma_ty_cmp(t@, m[i as int]);
        }
        if c == 0 {
            proof {
                assert(m[i as int] == t@);
                assert(m.to_set().contains(t@));
                assert(m.to_set().insert(t@) =~= m.to_set());
            }
            return;
        }
        if c < 0 {
            let ghost tv = t@;
            members.insert(i, t);
            proof {
                lemma_types_view(members@);
                let n = types_view(members@);
                assert(n =~= m.insert(i as int, tv));
                assert forall|x: int, y: int| 0 <= x < y < n.len() implies ty_cmp(
                    #[trigger] n[x],
                    #[trigger] n[y],
                ) < 0 by {
                    if x < i && y > i {
                        assert(n[y] == m[y - 1]);
                    } else if x == i && y > i + 1 {
                        lemma_ty_cmp_trans(tv, m[i as int], m[y - 1]);
                    }
                }
                assert forall|e: Ty| n.to_set().contains(e) <==> m.to_set().insert(tv).contains(e) by {
                    if n.to_set().contains(e) {
                        let k = choose|k: int| 0 <= k < n.len() && n[k] == e;
                        if k < i {
                            assert(m[k] == e);
                        } else if k > i {
                            assert(m[k - 1] == e);
                        }
                    }
                    if m.to_set().contains(e) {
                        let k = choose|k: int| 0 <= k < m.len() && m[k] == e;
                        if k < i {
                            assert(n[k] == e);
                        } else {
                            assert(n[k + 1] == e);
                        }
                    }
                    if e == tv {
                        assert(n[i as int] == e);
                    }
                }
                assert(n.to_set() =~= m.to_set().insert(tv));
            }
            return;
        }
        i = i + 1;
    }
    let ghost tv = t@;
    members.push(t);
    proof {
        lemma_types_view(members@);
        let n = types_view(members@);
        assert(n =~= m.push(tv));
        m.lemma_push_to_set_commute(tv);
    }
}

} // verus!
