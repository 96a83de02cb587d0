//! Literal values: model, canonical order, maps with unique keys, hashing and
//! type inference.
use vstd::prelude::*;
use vstd::std_specs::iter::IteratorSpec;
use crate::types::{Ty, Type, canonical, tys_sorted, types_view, insert_member, lemma_canonical};

verus! {

/// Mathematical model of a [`Value`]. A mapping is held as its keys, in
/// increasing canonical order, and the values that belong to them.
pub enum Val {
    Bool(bool),
    Integer(i64),
    String(Seq<char>),
    List(Seq<Val>),
    Mapping(Seq<Val>, Seq<Val>),
}

pub open spec fn val_tag(v: Val) -> int {
    match v {
        Val::Bool(_) => 0,
        Val::Integer(_) => 1,
        Val::String(_) => 2,
        Val::List(_) => 3,
        Val::Mapping(_, _) => 4,
    }
}

/// A total order on values: by variant, then by contents (strings, lists,
/// keys and then values of mappings lexicographically). Returns -1, 0 or 1.
pub open spec fn val_cmp(a: Val, b: Val) -> int
    decreases a,
{
    if val_tag(a) != val_tag(b) {
        if val_tag(a) < val_tag(b) {
            -1
        } else {
            1
        }
    } else {
        match a {
            Val::Bool(x) => match b {
                Val::Bool(y) => if x == y {
                    0
                } else if !x {
                    -1
                } else {
                    1
                },
                _ => 0,
            },
            Val::Integer(x) => match b {
                Val::Integer(y) => if x < y {
                    -1
                } else if x > y {
                    1
                } else {
                    0
                },
                _ => 0,
            },
            Val::String(x) => match b {
                Val::String(y) => chars_cmp(x, y),
                _ => 0,
            },
            Val::List(x) => match b {
                Val::List(y) => vals_cmp(x, y),
                _ => 0,
            },
            Val::Mapping(k1, v1) => match b {
                Val::Mapping(k2, v2) => {
                    let c = vals_cmp(k1, k2);
                    if c != 0 {
                        c
                    } else {
                        vals_cmp(v1, v2)
                    }
                },
                _ => 0,
            },
        }
    }
}

/// Lexicographic order on sequences of values; a proper prefix comes first.
pub open spec fn vals_cmp(s: Seq<Val>, t: Seq<Val>) -> int
    decreases s,
{
    if s.len() == 0 {
        if t.len() == 0 {
            0
        } else {
            -1
        }
    } else if t.len() == 0 {
        1
    } else {
        let c = val_cmp(s[0], t[0]);
        if c != 0 {
            c
        } else {
            vals_cmp(s.subrange(1, s.len() as int), t.subrange(1, t.len() as int))
        }
    }
}

/// Lexicographic order on strings, by code point.
pub open spec fn chars_cmp(s: Seq<char>, t: Seq<char>) -> int
    decreases s.len(),
{
    if s.len() == 0 {
        if t.len() == 0 {
            0
        } else {
            -1
        }
    } else if t.len() == 0 {
        1
    } else if (s[0] as int) < (t[0] as int) {
        -1
    } else if (s[0] as int) > (t[0] as int) {
        1
    } else {
        chars_cmp(s.subrange(1, s.len() as int), t.subrange(1, t.len() as int))
    }
}

pub open spec fn vals_sorted(s: Seq<Val>) -> bool {
    forall|i: int, j: int| 0 <= i < j < s.len() ==> val_cmp(#[trigger] s[i], #[trigger] s[j]) < 0
}

pub proof fn lemma_chars_cmp(s: Seq<char>, t: Seq<char>)
    ensures
        -1 <= chars_cmp(s, t) <= 1,
        chars_cmp(s, t) == -chars_cmp(t, s),
        chars_cmp(s, t) == 0 <==> s == t,
    decreases s.len(),
{
    if s.len() > 0 && t.len() > 0 {
        let s1 = s.subrange(1, s.len() as int);
        let t1 = t.subrange(1, t.len() as int);
        lemma_chars_cmp(s1, t1);
        if s[0] == t[0] && s1 == t1 {
            assert(s =~= seq![s[0]] + s1);
            assert(t =~= seq![t[0]] + t1);
        }
        if s == t {
            assert(s1 == t1);
        }
    } else if s.len() == 0 && t.len() == 0 {
        assert(s =~= t);
    }
}

pub proof fn lemma_chars_cmp_trans(s: Seq<char>, t: Seq<char>, u: Seq<char>)
    requires
        chars_cmp(s, t) < 0,
        chars_cmp(t, u) < 0,
    ensures
        chars_cmp(s, u) < 0,
    decreases s.len(),
{
    if s.len() > 0 && t.len() > 0 && u.len() > 0 {
        if (s[0] as int) == (t[0] as int) && (t[0] as int) == (u[0] as int) {
            lemma_chars_cmp_trans(
                s.subrange(1, s.len() as int),
                t.subrange(1, t.len() as int),
                u.subrange(1, u.len() as int),
            );
        }
    }
}

pub proof fn lemma_val_cmp(a: Val, b: Val)
    ensures
        -1 <= val_cmp(a, b) <= 1,
        val_cmp(a, b) == -val_cmp(b, a),
        val_cmp(a, b) == 0 <==> a == b,
    decreases a,
{
    match (a, b) {
        (Val::String(x), Val::String(y)) => lemma_chars_cmp(x, y),
        (Val::List(x), Val::List(y)) => lemma_vals_cmp(x, y),
        (Val::Mapping(k1, v1), Val::Mapping(k2, v2)) => {
            lemma_vals_cmp(k1, k2);
            lemma_vals_cmp(v1, v2);
        },
        _ => {},
    }
}

pub proof fn lemma_vals_cmp(s: Seq<Val>, t: Seq<Val>)
    ensures
        -1 <= vals_cmp(s, t) <= 1,
        vals_cmp(s, t) == -vals_cmp(t, s),
        vals_cmp(s, t) == 0 <==> s == t,
    decreases s,
{
    if s.len() > 0 && t.len() > 0 {
        let s1 = s.subrange(1, s.len() as int);
        let t1 = t.subrange(1, t.len() as int);
        lemma_val_cmp(s[0], t[0]);
        lemma_vals_cmp(s1, t1);
        if s[0] == t[0] && s1 == t1 {
            assert(s =~= seq![s[0]] + s1);
            assert(t =~= seq![t[0]] + t1);
        }
        if s == t {
            assert(s1 == t1);
        }
    } else if s.len() == 0 && t.len() == 0 {
        assert(s =~= t);
    }
}

pub proof fn lemma_val_cmp_trans(a: Val, b: Val, c: Val)
    requires
        val_cmp(a, b) < 0,
        val_cmp(b, c) < 0,
    ensures
        val_cmp(a, c) < 0,
    decreases a,
{
    match (a, b, c) {
        (Val::String(x), Val::String(y), Val::String(z)) => lemma_chars_cmp_trans(x, y, z),
        (Val::List(x), Val::List(y), Val::List(z)) => lemma_vals_cmp_trans(x, y, z),
        (Val::Mapping(k1, v1), Val::Mapping(k2, v2), Val::Mapping(k3, v3)) => {
            lemma_vals_cmp(k1, k2);
            lemma_vals_cmp(k2, k3);
            if vals_cmp(k1, k2) < 0 && vals_cmp(k2, k3) < 0 {
                lemma_vals_cmp_trans(k1, k2, k3);
            }
            if vals_cmp(k1, k2) == 0 && vals_cmp(k2, k3) == 0 {
                lemma_vals_cmp_trans(v1, v2, v3);
            }
        },
        _ => {},
    }
}

pub proof fn lemma_vals_cmp_trans(s: Seq<Val>, t: Seq<Val>, u: Seq<Val>)
    requires
        vals_cmp(s, t) < 0,
        vals_cmp(t, u) < 0,
    ensures
        vals_cmp(s, u) < 0,
    decreases s,
{
    if s.len() > 0 && t.len() > 0 && u.len() > 0 {
        lemma_val_cmp(s[0], t[0]);
        lemma_val_cmp(t[0], u[0]);
        if val_cmp(s[0], t[0]) < 0 && val_cmp(t[0], u[0]) < 0 {
            lemma_val_cmp_trans(s[0], t[0], u[0]);
        }
        if val_cmp(s[0], t[0]) == 0 && val_cmp(t[0], u[0]) == 0 {
            lemma_vals_cmp_trans(
                s.subrange(1, s.len() as int),
                t.subrange(1, t.len() as int),
                u.subrange(1, u.len() as int),
            );
        }
    }
}

/// Two sorted sequences with the same members are the same sequence.
pub proof fn lemma_vals_sorted_unique(c1: Seq<Val>, c2: Seq<Val>)
    requires
        vals_sorted(c1),
        vals_sorted(c2),
        c1.to_set() == c2.to_set(),
    ensures
        c1 == c2,
    decreases c1.len(),
{
    if c1.len() == 0 || c2.len() == 0 {
        if c1.len() > 0 {
            assert(c1.to_set().contains(c1[0]));
        }
        if c2.len() > 0 {
            assert(c2.to_set().contains(c2[0]));
        }
        assert(c1 =~= c2);
    } else {
        assert(c1.to_set().contains(c1[0]));
        assert(c2.to_set().contains(c2[0]));
        let j = choose|j: int| 0 <= j < c2.len() && c2[j] == c1[0];
        let i = choose|i: int| 0 <= i < c1.len() && c1[i] == c2[0];
        lemma_val_cmp(c1[0], c2[0]);
        if j > 0 {
            assert(val_cmp(c2[0], c2[j]) < 0);
            if i > 0 {
                assert(val_cmp(c1[0], c1[i]) < 0);
            } else {
                lemma_val_cmp(c2[j], c2[j]);
            }
        } else if i > 0 {
            assert(val_cmp(c1[0], c1[i]) < 0);
            lemma_val_cmp(c1[i], c1[i]);
        }
        assert(c1[0] == c2[0]);
        let t1 = c1.subrange(1, c1.len() as int);
        let t2 = c2.subrange(1, c2.len() as int);
        assert forall|x: Val| t1.to_set().contains(x) <==> t2.to_set().contains(x) by {
            if t1.to_set().contains(x) {
                let k = choose|k: int| 0 <= k < t1.len() && t1[k] == x;
                assert(c1[k + 1] == x);
                assert(c1.to_set().contains(x));
                lemma_val_cmp(c1[0], x);
                let m = choose|m: int| 0 <= m < c2.len() && c2[m] == x;
                assert(m != 0);
                assert(t2[m - 1] == x);
            }
            if t2.to_set().contains(x) {
                let k = choose|k: int| 0 <= k < t2.len() && t2[k] == x;
                assert(c2[k + 1] == x);
                assert(c2.to_set().contains(x));
                lemma_val_cmp(c2[0], x);
                let m = choose|m: int| 0 <= m < c1.len() && c1[m] == x;
                assert(m != 0);
                assert(t1[m - 1] == x);
            }
        }
        assert(t1.to_set() =~= t2.to_set());
        lemma_vals_sorted_unique(t1, t2);
        assert(c1 =~= seq![c1[0]] + t1);
        assert(c2 =~= seq![c2[0]] + t2);
    }
}


/// Index of a key in a sequence of distinct keys.
pub open spec fn key_index(keys: Seq<Val>, k: Val) -> int {
    choose|i: int| 0 <= i < keys.len() && keys[i] == k
}

/// Keys in increasing order (so distinct), one value for each.
pub open spec fn map_wf(keys: Seq<Val>, vals: Seq<Val>) -> bool {
    keys.len() == vals.len() && vals_sorted(keys)
}

/// The finite map that parallel key and value sequences stand for.
pub open spec fn entries_of(keys: Seq<Val>, vals: Seq<Val>) -> Map<Val, Val> {
    Map::new(|k: Val| keys.contains(k), |k: Val| vals[key_index(keys, k)])
}

pub proof fn lemma_key_index(keys: Seq<Val>, i: int)
    requires
        vals_sorted(keys),
        0 <= i < keys.len(),
    ensures
        key_index(keys, keys[i]) == i,
{
    let j = key_index(keys, keys[i]);
    assert(0 <= j < keys.len() && keys[j] == keys[i]);
    lemma_val_cmp(keys[i], keys[i]);
}

/// Inserting a new key at its place in the order.
pub proof fn lemma_entries_insert_at(keys: Seq<Val>, vals: Seq<Val>, i: int, k: Val, v: Val)
    requires
        map_wf(keys, vals),
        0 <= i <= keys.len(),
        forall|j: int| 0 <= j < i ==> val_cmp(#[trigger] keys[j], k) < 0,
        i < keys.len() ==> val_cmp(k, keys[i]) < 0,
    ensures
        map_wf(keys.insert(i, k), vals.insert(i, v)),
        entries_of(keys.insert(i, k), vals.insert(i, v)) == entries_of(keys, vals).insert(k, v),
{
    let nk = keys.insert(i, k);
    let nv = vals.insert(i, v);
    assert forall|x: int, y: int| 0 <= x < y < nk.len() implies val_cmp(
        #[trigger] nk[x],
        #[trigger] nk[y],
    ) < 0 by {
        if x < i && y > i {
            assert(nk[y] == keys[y - 1]);
        } else if x == i && y > i + 1 {
            lemma_val_cmp_trans(k, keys[i], keys[y - 1]);
        }
    }
    assert forall|j: int| 0 <= j < keys.len() implies #[trigger] keys[j] != k by {
        lemma_val_cmp(keys[j], k);
        if j > i {
            lemma_val_cmp_trans(k, keys[i], keys[j]);
        }
        lemma_val_cmp(k, keys[j]);
    }
    let old_e = entries_of(keys, vals);
    let new_e = entries_of(nk, nv);
    assert forall|x: Val| new_e.contains_key(x) <==> old_e.insert(k, v).contains_key(x) by {
        if nk.contains(x) {
            let j = choose|j: int| 0 <= j < nk.len() && nk[j] == x;
            if j < i {
                assert(keys[j] == x);
            } else if j > i {
                assert(keys[j - 1] == x);
            }
        }
        if keys.contains(x) {
            let j = choose|j: int| 0 <= j < keys.len() && keys[j] == x;
            if j < i {
                assert(nk[j] == x);
            } else {
                assert(nk[j + 1] == x);
            }
        }
        if x == k {
            assert(nk[i] == x);
        }
    }
    assert forall|x: Val| #[trigger] new_e.contains_key(x) implies new_e[x] == old_e.insert(
        k,
        v,
    )[x] by {
        let j = choose|j: int| 0 <= j < nk.len() && nk[j] == x;
        lemma_key_index(nk, j);
        if j < i {
            lemma_key_index(keys, j);
        } else if j > i {
            lemma_key_index(keys, j - 1);
        }
    }
    assert(new_e =~= old_e.insert(k, v));
}

/// Replacing the value of a key that is present.
pub proof fn lemma_entries_update(keys: Seq<Val>, vals: Seq<Val>, i: int, v: Val)
    requires
        map_wf(keys, vals),
        0 <= i < keys.len(),
    ensures
        map_wf(keys, vals.update(i, v)),
        entries_of(keys, vals.update(i, v)) == entries_of(keys, vals).insert(keys[i], v),
{
    let old_e = entries_of(keys, vals);
    let new_e = entries_of(keys, vals.update(i, v));
    assert(keys.contains(keys[i]));
    assert forall|x: Val| #[trigger] new_e.contains_key(x) implies new_e[x] == old_e.insert(
        keys[i],
        v,
    )[x] by {
        assert(keys.contains(x));
        let j = choose|j: int| 0 <= j < keys.len() && keys[j] == x;
        lemma_key_index(keys, j);
        assert(new_e[x] == vals.update(i, v)[j]);
        assert(old_e.contains_key(x));
        if j != i {
            lemma_val_cmp(keys[i], keys[j]);
            assert(old_e[x] == vals[j]);
        }
    }
    assert(new_e =~= old_e.insert(keys[i], v));
}

/// Hashing step: `h * 31 + x`, wrapping.
pub open spec fn mix(h: u64, x: u64) -> u64 {
    h.wrapping_mul(31).wrapping_add(x)
}

pub open spec fn val_width(v: Val) -> int {
    match v {
        Val::Mapping(k, _) => k.len() as int + 1,
        _ => 0,
    }
}

/// Structural hash. Entries of a mapping are hashed one by one and the
/// results added, which does not depend on the order of the entries.
pub open spec fn val_hash(v: Val) -> u64
    decreases v, val_width(v),
{
    match v {
        Val::Bool(b) => mix(1, if b { 1 } else { 0 }),
        Val::Integer(i) => mix(2, i as u64),
        Val::String(s) => mix(3, chars_hash(s)),
        Val::List(s) => mix(4, vals_hash(s)),
        Val::Mapping(k, w) => mix(5, pairs_hash(v, if k.len() < w.len() { k.len() as int } else { w.len() as int })),
    }
}

/// Sum of the hashes of the first `n` entries of a mapping.
pub open spec fn pairs_hash(m: Val, n: int) -> u64
    decreases m, n,
{
    match m {
        Val::Mapping(k, w) => if n <= 0 || n > k.len() || n > w.len() {
            0
        } else {
            pairs_hash(m, n - 1).wrapping_add(mix(val_hash(k[n - 1]), val_hash(w[n - 1])))
        },
        _ => 0,
    }
}

pub open spec fn vals_hash(s: Seq<Val>) -> u64
    decreases s, 0int,
{
    if s.len() == 0 {
        0
    } else {
        mix(vals_hash(s.subrange(0, s.len() - 1)), val_hash(s[s.len() - 1]))
    }
}

pub open spec fn chars_hash(s: Seq<char>) -> u64
    decreases s.len(),
{
    if s.len() == 0 {
        0
    } else {
        mix(chars_hash(s.subrange(0, s.len() - 1)), s[s.len() - 1] as u64)
    }
}

/// The type of a value: atoms map to atoms, collections to the canonical
/// union of the types of their members.
pub open spec fn infer(v: Val) -> Ty
    decreases v,
{
    match v {
        Val::Bool(_) => Ty::Bool,
        Val::Integer(_) => Ty::Integer,
        Val::String(_) => Ty::String,
        Val::List(s) => Ty::List(canonical(infer_all(s).to_set())),
        Val::Mapping(k, w) => Ty::Mapping(
            canonical(infer_all(k).to_set()),
            canonical(infer_all(w).to_set()),
        ),
    }
}

/// The types of a sequence of values, position by position.
pub open spec fn infer_all(s: Seq<Val>) -> Seq<Ty>
    decreases s,
{
    if s.len() == 0 {
        Seq::empty()
    } else {
        infer_all(s.subrange(0, s.len() - 1)).push(infer(s[s.len() - 1]))
    }
}


/// A literal value. Mappings keep their keys in canonical order, so two
/// mappings with the same entries are the same value, whatever the order in
/// which the entries were inserted.
#[derive(Debug, Hash)]
pub enum Value {
    Bool(bool),
    Integer(i64),
    String(String),
    List(Vec<Value>),
    Mapping(ValueMap),
}

/// A mapping from values to values with unique keys; the last write of a key wins.
#[derive(Debug, Hash)]
pub struct ValueMap {
    keys: Vec<Value>,
    vals: Vec<Value>,
}

impl Value {
    pub open spec fn view(&self) -> Val
        decreases self,
    {
        match self {
            Value::Bool(b) => Val::Bool(*b),
            Value::Integer(i) => Val::Integer(*i),
            Value::String(s) => Val::String(s@),
            Value::List(v) => Val::List(values_view(v@)),
            Value::Mapping(m) => Val::Mapping(m.keys_view(), m.vals_view()),
        }
    }
}

impl ValueMap {
    /// The keys, in increasing order.
    pub closed spec fn keys_view(&self) -> Seq<Val>
        decreases self,
    {
        values_view(self.keys@)
    }

    /// The values, each at the position of its key.
    pub closed spec fn vals_view(&self) -> Seq<Val>
        decreases self,
    {
        values_view(self.vals@)
    }

    pub open spec fn wf(&self) -> bool {
        map_wf(self.keys_view(), self.vals_view())
    }

    pub open spec fn entries(&self) -> Map<Val, Val> {
        entries_of(self.keys_view(), self.vals_view())
    }
}

/// The models of a sequence of values.
pub open spec fn values_view(s: Seq<Value>) -> Seq<Val>
    decreases s,
{
    if s.len() == 0 {
        Seq::empty()
    } else {
        values_view(s.subrange(0, s.len() - 1)).push(s[s.len() - 1].view())
    }
}

pub proof fn lemma_values_view(s: Seq<Value>)
    ensures
        values_view(s).len() == s.len(),
        forall|i: int| 0 <= i < s.len() ==> #[trigger] values_view(s)[i] == s[i]@,
    decreases s.len(),
{
    if s.len() > 0 {
        lemma_values_view(s.subrange(0, s.len() - 1));
    }
}


/// The characters of a string.
pub fn chars_of(s: &str) -> (r: Vec<char>)
    ensures
        r@ == s@,
{
    let mut r: Vec<char> = Vec::new();
    let mut chars = s.chars();
    loop
        invariant
            r@ + chars.remaining() == s@,
            chars.obeys_prophetic_iter_laws(),
            chars.decrease() is Some,
        ensures
            r@ == s@,
        decreases chars.decrease()->0,
    {
        match chars.next() {
            Some(c) => {
                proof {
                    assert(r@.push(c) + chars.remaining() =~= s@);
                }
                r.push(c);
            },
            None => {
                proof {
                    assert(r@ =~= s@);
                }
                break;
            },
        }
    }
    r
}

/// Relies on `String::push`: appends one character.
#[verifier::external_body]
pub(crate) fn push_char(s: &mut String, c: char)
    ensures
        final(s)@ == old(s)@.push(c),
{
    s.push(c)
}


/// Lexicographic comparison of two strings by code point: -1, 0 or 1.
pub fn compare_strings(a: &String, b: &String) -> (r: i8)
    ensures
        r == chars_cmp(a@, b@),
{
    let x = chars_of(a.as_str());
    let y = chars_of(b.as_str());
    let ghost sa = x@;
    let ghost sb = y@;
    proof {
        assert(sa.subrange(0, sa.len() as int) =~= sa);
        assert(sb.subrange(0, sb.len() as int) =~= sb);
    }
    let mut i: usize = 0;
    while i < x.len() && i < y.len()
        invariant
            i <= x.len(),
            i <= y.len(),
            sa == x@,
            sb == y@,
            chars_cmp(a@, b@) == chars_cmp(
                sa.subrange(i as int, sa.len() as int),
                sb.subrange(i as int, sb.len() as int),
            ),
            sa == a@,
            sb == b@,
        decreases x.len() - i,
    {
        let c = x[i];
        let d = y[i];
        proof {
            let ta = sa.subrange(i as int, sa.len() as int);
            let tb = sb.subrange(i as int, sb.len() as int);
            assert(ta.subrange(1, ta.len() as int) =~= sa.subrange(i + 1, sa.len() as int));
            assert(tb.subrange(1, tb.len() as int) =~= sb.subrange(i + 1, sb.len() as int));
        }
        if c < d {
            return -1;
        }
        if c > d {
            return 1;
        }
        i = i + 1;
    }
    if i < x.len() {
        1
    } else if i < y.len() {
        -1
    } else {
        0
    }
}

impl Value {
    /// Compares in the total order on values: -1, 0 or 1.
    pub fn compare(&self, other: &Value) -> (r: i8)
        ensures
            r == val_cmp(self@, other@),
        decreases self,
    {
        proof {
            lemma_val_cmp(self@, other@);
        }
        match (self, other) {
            (Value::Bool(x), Value::Bool(y)) => if *x == *y {
                0
            } else if !*x {
                -1
            } else {
                1
            },
            (Value::Integer(x), Value::Integer(y)) => if *x < *y {
                -1
            } else if *x > *y {
                1
            } else {
                0
            },
            (Value::String(x), Value::String(y)) => compare_strings(x, y),
            (Value::List(x), Value::List(y)) => compare_values(x, y),
            (Value::Mapping(m1), Value::Mapping(m2)) => {
                let c = compare_values(&m1.keys, &m2.keys);
                if c != 0 {
                    c
                } else {
                    compare_values(&m1.vals, &m2.vals)
                }
            },
            _ => if self.tag() < other.tag() {
                -1
            } else {
                1
            },
        }
    }

    fn tag(&self) -> (r: u8)
        ensures
            r == val_tag(self@),
    {
        match self {
            Value::Bool(_) => 0,
            Value::Integer(_) => 1,
            Value::String(_) => 2,
            Value::List(_) => 3,
            Value::Mapping(_) => 4,
        }
    }
}

/// Lexicographic comparison of two sequences of values: -1, 0 or 1.
pub fn compare_values(a: &Vec<Value>, b: &Vec<Value>) -> (r: i8)
    ensures
        r == vals_cmp(values_view(a@), values_view(b@)),
    decreases a,
{
    let ghost sa = values_view(a@);
    let ghost sb = values_view(b@);
    proof {
        lemma_values_view(a@);
        lemma_values_view(b@);
        assert(sa.subrange(0, sa.len() as int) =~= sa);
        assert(sb.subrange(0, sb.len() as int) =~= sb);
    }
    let mut i: usize = 0;
    while i < a.len() && i < b.len()
        invariant
            i <= a.len(),
            i <= b.len(),
            sa == values_view(a@),
            sb == values_view(b@),
            sa.len() == a.len(),
            sb.len() == b.len(),
            forall|k: int| 0 <= k < a.len() ==> #[trigger] sa[k] == a@[k]@,
            forall|k: int| 0 <= k < b.len() ==> #[trigger] sb[k] == b@[k]@,
            vals_cmp(sa, sb) == vals_cmp(
                sa.subrange(i as int, sa.len() as int),
                sb.subrange(i as int, sb.len() as int),
            ),
        decreases a.len() - i,
    {
        let c = a[i].compare(&b[i]);
        proof {
            let ta = sa.subrange(i as int, sa.len() as int);
            let tb = sb.subrange(i as int, sb.len() as int);
            assert(ta[0] == a@[i as int]@);
            assert(tb[0] == b@[i as int]@);
            assert(ta.subrange(1, ta.len() as int) =~= sa.subrange(i + 1, sa.len() as int));
            assert(tb.subrange(1, tb.len() as int) =~= sb.subrange(i + 1, sb.len() as int));
        }
        if c != 0 {
            return c;
        }
        i = i + 1;
    }
    if i < a.len() {
        1
    } else if i < b.len() {
        -1
    } else {
        0
    }
}

impl PartialEq for Value {
    fn eq(&self, other: &Value) -> (r: bool) {
        proof {
            lemma_val_cmp(self@, other@);
        }
        self.compare(other) == 0
    }
}

impl vstd::std_specs::cmp::PartialEqSpecImpl for Value {
    open spec fn obeys_eq_spec() -> bool {
        true
    }

    open spec fn eq_spec(&self, other: &Value) -> bool {
        self@ == other@
    }
}

impl Eq for Value {

}


pub proof fn lemma_values_view_insert(s: Seq<Value>, i: int, x: Value)
    requires
        0 <= i <= s.len(),
    ensures
        values_view(s.insert(i, x)) == values_view(s).insert(i, x@),
{
    lemma_values_view(s);
    lemma_values_view(s.insert(i, x));
    assert(values_view(s.insert(i, x)) =~= values_view(s).insert(i, x@));
}

impl ValueMap {
    /// The empty mapping.
    pub fn new() -> (r: ValueMap)
        ensures
            r.wf(),
            r.keys_view() == Seq::<Val>::empty(),
            r.entries() == Map::<Val, Val>::empty(),
    {
        let r = ValueMap { keys: Vec::new(), vals: Vec::new() };
        proof {
            assert(r.entries() =~= Map::<Val, Val>::empty());
        }
        r
    }

    /// The number of entries.
    pub fn len(&self) -> (r: usize)
        ensures
            r == self.keys_view().len(),
    {
        proof {
            lemma_values_view(self.keys@);
        }
        self.keys.len()
    }

    /// Sets the value of `key`, replacing an earlier value of an equal key.
    pub fn insert(&mut self, key: Value, val: Value)
        requires
            old(self).wf(),
        ensures
            final(self).wf(),
            final(self).entries() == old(self).entries().insert(key@, val@),
    {
        let ghost ks = self.keys_view();
        let ghost vs = self.vals_view();
        proof {
            lemma_values_view(self.keys@);
            lemma_values_view(self.vals@);
        }
        let mut i: usize = 0;
        while i < self.keys.len()
            invariant
                i <= self.keys.len(),
                self.keys_view() == ks,
                self.vals_view() == vs,
                *self == *old(self),
                map_wf(ks, vs),
                ks.len() == self.keys.len(),
                vs.len() == self.vals.len(),
                forall|k: int| 0 <= k < self.keys.len() ==> #[trigger] ks[k] == self.keys@[k]@,
                forall|k: int| 0 <= k < i ==> val_cmp(#[trigger] ks[k], key@) < 0,
            decreases self.keys.len() - i,
        {
            let c = key.compare(&self.keys[i]);
            proof {
                lemma_val_cmp(key@, ks[i as int]);
            }
            if c == 0 {
                let ghost vv = val@;
                let ghost ov = self.vals@;
                self.vals.remove(i);
                self.vals.insert(i, val);
                proof {
                    assert(self.vals@ =~= ov.update(i as int, val));
                    lemma_values_view(ov);
                    lemma_values_view(self.vals@);
                    assert(self.vals_view() =~= vs.update(i as int, vv));
                    lemma_entries_update(ks, vs, i as int, vv);
                }
                return;
            }
            if c < 0 {
                let ghost kv = key@;
                let ghost vv = val@;
                let ghost ok = self.keys@;
                let ghost ov = self.vals@;
                self.keys.insert(i, key);
                self.vals.insert(i, val);
                proof {
                    lemma_values_view_insert(ok, i as int, key);
                    lemma_values_view_insert(ov, i as int, val);
                    lemma_entries_insert_at(ks, vs, i as int, kv, vv);
                }
                return;
            }
            i = i + 1;
        }
        let ghost kv = key@;
        let ghost vv = val@;
        let ghost ok = self.keys@;
        let ghost ov = self.vals@;
        let n = self.keys.len();
        self.keys.push(key);
        self.vals.push(val);
        proof {
            assert(ok.push(key) == ok.insert(n as int, key));
            assert(ov.push(val) == ov.insert(n as int, val));
            lemma_values_view_insert(ok, n as int, key);
            lemma_values_view_insert(ov, n as int, val);
            lemma_entries_insert_at(ks, vs, n as int, kv, vv);
        }
    }
}


impl Value {
    /// The structural type of this value (see [`infer`]).
    pub fn type_of(&self) -> (r: Type)
        ensures
            r@ == infer(self@),
        decreases self,
    {
        match self {
            Value::Bool(_) => Type::Bool,
            Value::Integer(_) => Type::Integer,
            Value::String(_) => Type::String,
            Value::List(items) => Type::List(union_of(items)),
            Value::Mapping(m) => Type::Mapping(union_of(&m.keys), union_of(&m.vals)),
        }
    }
}

/// The canonical union of the types of some values.
pub fn union_of(items: &Vec<Value>) -> (r: Vec<Type>)
    ensures
        types_view(r@) == canonical(infer_all(values_view(items@)).to_set()),
    decreases items,
{
    let ghost s = values_view(items@);
    proof {
        lemma_values_view(items@);
        assert(s.subrange(0, s.len() as int) =~= s);
        assert(types_view(Seq::<Type>::empty()) =~= Seq::<Ty>::empty());
        assert(infer_all(s.subrange(0, 0)).to_set() =~= Set::<Ty>::empty());
        assert(Seq::<Ty>::empty().to_set() =~= Set::<Ty>::empty());
    }
    let mut members: Vec<Type> = Vec::new();
    let mut i: usize = 0;
    while i < items.len()
        invariant
            i <= items.len(),
            s == values_view(items@),
            s.len() == items.len(),
            forall|k: int| 0 <= k < items.len() ==> #[trigger] s[k] == items@[k]@,
            tys_sorted(types_view(members@)),
            types_view(members@).to_set() == infer_all(s.subrange(0, i as int)).to_set(),
        decreases items.len() - i,
    {
        let t = items[i].type_of();
        let ghost before = infer_all(s.subrange(0, i as int));
        insert_member(&mut members, t);
        proof {
            let p = s.subrange(0, i + 1);
            assert(p.subrange(0, p.len() - 1) =~= s.subrange(0, i as int));
            assert(infer_all(p) == before.push(infer(s[i as int])));
            before.lemma_push_to_set_commute(infer(s[i as int]));
        }
        i = i + 1;
    }
    proof {
        lemma_canonical(types_view(members@));
    }
    members
}

impl Value {
    /// Structural hash (see [`val_hash`]); equal values hash equally, and the
    /// entries of a mapping are combined by a commutative sum.
    pub fn hash_code(&self) -> (r: u64)
        ensures
            r == val_hash(self@),
        decreases self,
    {
        match self {
            Value::Bool(b) => hash_step(1, if *b { 1 } else { 0 }),
            Value::Integer(i) => hash_step(2, *i as u64),
            Value::String(s) => hash_step(3, hash_chars(s)),
            Value::List(items) => hash_step(4, hash_values(items)),
            Value::Mapping(m) => hash_step(5, hash_entries(m)),
        }
    }
}

/// Sum of the hashes of the entries of a mapping.
fn hash_entries(m: &ValueMap) -> (r: u64)
    ensures
        r == pairs_hash(
            Val::Mapping(m.keys_view(), m.vals_view()),
            if m.keys_view().len() < m.vals_view().len() {
                m.keys_view().len() as int
            } else {
                m.vals_view().len() as int
            },
        ),
    decreases m,
{
    let ghost ks = m.keys_view();
    let ghost vs = m.vals_view();
    let ghost mv = Val::Mapping(ks, vs);
    proof {
        lemma_values_view(m.keys@);
        lemma_values_view(m.vals@);
    }
    let mut sum: u64 = 0;
    let mut i: usize = 0;
    while i < m.keys.len() && i < m.vals.len()
        invariant
            i <= m.keys.len(),
            i <= m.vals.len(),
            ks == values_view(m.keys@),
            vs == values_view(m.vals@),
            ks.len() == m.keys.len(),
            vs.len() == m.vals.len(),
            mv == Val::Mapping(ks, vs),
            forall|k: int| 0 <= k < m.keys.len() ==> #[trigger] ks[k] == m.keys@[k]@,
            forall|k: int| 0 <= k < m.vals.len() ==> #[trigger] vs[k] == m.vals@[k]@,
            sum == pairs_hash(mv, i as int),
        decreases m.keys.len() - i,
    {
        proof {
            assert(decreases_to!(m => m.keys));
            assert(decreases_to!(m => m.vals));
        }
        let hk = m.keys[i].hash_code();
        let hv = m.vals[i].hash_code();
        sum = sum.wrapping_add(hash_step(hk, hv));
        i = i + 1;
    }
    sum
}

/// One hashing step (see [`mix`]).
pub fn hash_step(h: u64, x: u64) -> (r: u64)
    ensures
        r == mix(h, x),
{
    h.wrapping_mul(31).wrapping_add(x)
}

fn hash_chars(s: &String) -> (r: u64)
    ensures
        r == chars_hash(s@),
{
    let cs = chars_of(s.as_str());
    let mut h: u64 = 0;
    let mut i: usize = 0;
    while i < cs.len()
        invariant
            i <= cs.len(),
            cs@ == s@,
            h == chars_hash(cs@.subrange(0, i as int)),
        decreases cs.len() - i,
    {
        proof {
            let p = cs@.subrange(0, i + 1);
            assert(p.subrange(0, p.len() - 1) =~= cs@.subrange(0, i as int));
        }
        h = hash_step(h, cs[i] as u64);
        i = i + 1;
    }
    proof {
        assert(cs@.subrange(0, cs.len() as int) =~= cs@);
    }
    h
}

fn hash_values(items: &Vec<Value>) -> (r: u64)
    ensures
        r == vals_hash(values_view(items@)),
    decreases items,
{
    let ghost s = values_view(items@);
    proof {
        lemma_values_view(items@);
        assert(s.subrange(0, s.len() as int) =~= s);
    }
    let mut h: u64 = 0;
    let mut i: usize = 0;
    while i < items.len()
        invariant
            i <= items.len(),
            s == values_view(items@),
            s.len() == items.len(),
            forall|k: int| 0 <= k < items.len() ==> #[trigger] s[k] == items@[k]@,
            h == vals_hash(s.subrange(0, i as int)),
        decreases items.len() - i,
    {
        proof {
            let p = s.subrange(0, i + 1);
            assert(p.subrange(0, p.len() - 1) =~= s.subrange(0, i as int));
        }
        h = hash_step(h, items[i].hash_code());
        i = i + 1;
    }
    h
}


/// Mapping built from key-value pairs inserted in order: a later pair wins.
pub open spec fn pairs_map(pairs: Seq<(Val, Val)>) -> Map<Val, Val>
    decreases pairs.len(),
{
    if pairs.len() == 0 {
        Map::empty()
    } else {
        pairs_map(pairs.subrange(0, pairs.len() - 1)).insert(
            pairs[pairs.len() - 1].0,
            pairs[pairs.len() - 1].1,
        )
    }
}

/// Models of key-value pairs.
pub open spec fn pairs_view(pairs: Seq<(Value, Value)>) -> Seq<(Val, Val)> {
    Seq::new(pairs.len(), |i: int| (pairs[i].0@, pairs[i].1@))
}

impl Value {
    /// A mapping holding the given pairs, inserted in order.
    pub fn from_pairs(pairs: Vec<(Value, Value)>) -> (r: Value)
        ensures
            r matches Value::Mapping(m) && m.wf() && m.entries() == pairs_map(pairs_view(pairs@)),
    {
        let mut m = ValueMap::new();
        let mut rest = pairs;
        let ghost all = pairs_view(rest@);
        let mut i: usize = 0;
        proof {
            assert(all.subrange(0, 0) =~= Seq::<(Val, Val)>::empty());
            assert(m.entries() =~= pairs_map(all.subrange(0, 0)));
        }
        let n = rest.len();
        while i < n
            invariant
                n == all.len(),
                rest.len() == n - i,
                i <= n,
                forall|k: int| 0 <= k < rest.len() ==> (#[trigger] rest@[k]).0@ == all[i + k].0
                    && rest@[k].1@ == all[i + k].1,
                m.wf(),
                m.entries() == pairs_map(all.subrange(0, i as int)),
            decreases n - i,
        {
            let (k, v) = rest.remove(0);
            proof {
                let p = all.subrange(0, i + 1);
                assert(p.subrange(0, p.len() - 1) =~= all.subrange(0, i as int));
            }
            m.insert(k, v);
            i = i + 1;
        }
        proof {
            assert(all.subrange(0, n as int) =~= all);
        }
        Value::Mapping(m)
    }
}

impl vstd::std_specs::convert::FromSpecImpl<i64> for Value {
    open spec fn obeys_from_spec() -> bool {
        true
    }

    open spec fn from_spec(v: i64) -> Value {
        Value::Integer(v)
    }
}

impl From<i64> for Value {
    fn from(v: i64) -> Value {
        Value::Integer(v)
    }
}

impl vstd::std_specs::convert::FromSpecImpl<bool> for Value {
    open spec fn obeys_from_spec() -> bool {
        true
    }

    open spec fn from_spec(v: bool) -> Value {
        Value::Bool(v)
    }
}

impl From<bool> for Value {
    fn from(v: bool) -> Value {
        Value::Bool(v)
    }
}

impl vstd::std_specs::convert::FromSpecImpl<String> for Value {
    open spec fn obeys_from_spec() -> bool {
        true
    }

    open spec fn from_spec(v: String) -> Value {
        Value::String(v)
    }
}

impl From<String> for Value {
    fn from(v: String) -> Value {
        Value::String(v)
    }
}

impl vstd::std_specs::convert::FromSpecImpl<Vec<Value>> for Value {
    open spec fn obeys_from_spec() -> bool {
        true
    }

    open spec fn from_spec(v: Vec<Value>) -> Value {
        Value::List(v)
    }
}

impl From<Vec<Value>> for Value {
    fn from(v: Vec<Value>) -> Value {
        Value::List(v)
    }
}


/// Two mappings with the same entries hold the same keys and values, in the
/// same order.
pub proof fn lemma_mapping_unique(k1: Seq<Val>, w1: Seq<Val>, k2: Seq<Val>, w2: Seq<Val>)
    requires
        map_wf(k1, w1),
        map_wf(k2, w2),
        entries_of(k1, w1) == entries_of(k2, w2),
    ensures
        k1 == k2,
        w1 == w2,
{
    assert forall|x: Val| k1.to_set().contains(x) <==> k2.to_set().contains(x) by {
        assert(entries_of(k1, w1).contains_key(x) == k1.contains(x));
        assert(entries_of(k2, w2).contains_key(x) == k2.contains(x));
    }
    assert(k1.to_set() =~= k2.to_set());
    lemma_vals_sorted_unique(k1, k2);
    assert forall|i: int| 0 <= i < w1.len() implies w1[i] == w2[i] by {
        lemma_key_index(k1, i);
        assert(k1.contains(k1[i]));
        assert(entries_of(k1, w1)[k1[i]] == w1[i]);
        assert(entries_of(k2, w2)[k2[i]] == w2[i]);
    }
    assert(w1 =~= w2);
}


impl Value {
    /// A copy with the same model.
    pub fn copied(&self) -> (r: Value)
        ensures
            r@ == self@,
        decreases self,
    {
        match self {
            Value::Bool(b) => Value::Bool(*b),
            Value::Integer(i) => Value::Integer(*i),
            Value::String(s) => Value::String(s.clone()),
            Value::List(items) => Value::List(copy_values(items)),
            Value::Mapping(m) => Value::Mapping(m.copied()),
        }
    }
}

impl ValueMap {
    /// A copy with the same keys and values.
    pub fn copied(&self) -> (r: ValueMap)
        ensures
            r.keys_view() == self.keys_view(),
            r.vals_view() == self.vals_view(),
        decreases self,
    {
        proof {
            assert(decreases_to!(self => self.keys));
            assert(decreases_to!(self => self.vals));
        }
        ValueMap { keys: copy_values(&self.keys), vals: copy_values(&self.vals) }
    }
}

/// A copy of a sequence of values with the same models.
pub fn copy_values(a: &Vec<Value>) -> (r: Vec<Value>)
    ensures
        values_view(r@) == values_view(a@),
    decreases a,
{
    let mut r: Vec<Value> = Vec::new();
    let mut i: usize = 0;
    while i < a.len()
        invariant
            i <= a.len(),
            r.len() == i,
            forall|k: int| 0 <= k < i ==> #[trigger] r@[k]@ == a@[k]@,
        decreases a.len() - i,
    {
        r.push(a[i].copied());
        i = i + 1;
    }
    proof {
        lemma_values_view(r@);
        lemma_values_view(a@);
        assert(values_view(r@) =~= values_view(a@));
    }
    r
}

impl Clone for Value {
    fn clone(&self) -> (r: Value)
        ensures
            r@ == self@,
    {
        self.copied()
    }
}

impl Clone for ValueMap {
    fn clone(&self) -> (r: ValueMap)
        ensures
            r.keys_view() == self.keys_view(),
            r.vals_view() == self.vals_view(),
    {
        self.copied()
    }
}

} // verus!
