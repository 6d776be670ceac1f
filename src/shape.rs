//! The mathematical model of an inferred type, its canonical order and the
//! unification rule stated over it.
use vstd::prelude::*;

verus! {

/// The shape of a JSON value: the model that every `DataType` denotes.
///
/// Object fields and variant options are sequences kept in canonical order
/// (fields by name, options by `cmp_shape`).
pub enum Shape {
    Null,
    Str,
    Int,
    Float,
    Bool,
    Object(Seq<(Seq<char>, Shape)>),
    Array(Box<Shape>),
    Variant(Seq<Shape>),
}

pub open spec fn cmp_int(a: int, b: int) -> int {
    if a < b {
        -1
    } else if a > b {
        1
    } else {
        0
    }
}

/// Lexicographic order of character sequences by code point, which is the
/// order of `String` (byte order of UTF-8 keeps code point order).
pub open spec fn cmp_chars(a: Seq<char>, b: Seq<char>) -> int
    decreases a.len(),
{
    if a.len() == 0 {
        if b.len() == 0 {
            0
        } else {
            -1
        }
    } else if b.len() == 0 {
        1
    } else if a[0] != b[0] {
        cmp_int(a[0] as int, b[0] as int)
    } else {
        cmp_chars(a.drop_first(), b.drop_first())
    }
}

/// Position of a shape's kind in the canonical order.
pub open spec fn tag(s: Shape) -> int {
    match s {
        Shape::Null => 0,
        Shape::Str => 1,
        Shape::Int => 2,
        Shape::Float => 3,
        Shape::Bool => 4,
        Shape::Object(_) => 5,
        Shape::Array(_) => 6,
        Shape::Variant(_) => 7,
    }
}

/// Canonical order of shapes: by kind, then lexicographically by payload.
pub open spec fn cmp_shape(a: Shape, b: Shape) -> int
    decreases a,
{
    if tag(a) != tag(b) {
        cmp_int(tag(a), tag(b))
    } else {
        match a {
            Shape::Object(f) => match b {
                Shape::Object(g) => cmp_fields(f, g),
                _ => 0,
            },
            Shape::Array(x) => match b {
                Shape::Array(y) => cmp_shape(*x, *y),
                _ => 0,
            },
            Shape::Variant(s) => match b {
                Shape::Variant(t) => cmp_opts(s, t),
                _ => 0,
            },
            _ => 0,
        }
    }
}

pub open spec fn cmp_fields(f: Seq<(Seq<char>, Shape)>, g: Seq<(Seq<char>, Shape)>) -> int
    decreases f,
{
    if f.len() == 0 {
        if g.len() == 0 {
            0
        } else {
            -1
        }
    } else if g.len() == 0 {
        1
    } else if cmp_chars(f[0].0, g[0].0) != 0 {
        cmp_chars(f[0].0, g[0].0)
    } else if cmp_shape(f[0].1, g[0].1) != 0 {
        cmp_shape(f[0].1, g[0].1)
    } else {
        cmp_fields(f.drop_first(), g.drop_first())
    }
}

pub open spec fn cmp_opts(s: Seq<Shape>, t: Seq<Shape>) -> int
    decreases s,
{
    if s.len() == 0 {
        if t.len() == 0 {
            0
        } else {
            -1
        }
    } else if t.len() == 0 {
        1
    } else if cmp_shape(s[0], t[0]) != 0 {
        cmp_shape(s[0], t[0])
    } else {
        cmp_opts(s.drop_first(), t.drop_first())
    }
}

/// Merges two option sequences by the canonical order, keeping one copy of
/// an option that both hold.
pub open spec fn merge_opts(s: Seq<Shape>, t: Seq<Shape>) -> Seq<Shape>
    decreases s.len() + t.len(),
{
    if s.len() == 0 {
        t
    } else if t.len() == 0 {
        s
    } else if cmp_shape(s[0], t[0]) < 0 {
        seq![s[0]] + merge_opts(s.drop_first(), t)
    } else if cmp_shape(s[0], t[0]) > 0 {
        seq![t[0]] + merge_opts(s, t.drop_first())
    } else {
        seq![s[0]] + merge_opts(s.drop_first(), t.drop_first())
    }
}

/// A measure of a shape that unification descends on.
pub open spec fn size(s: Shape) -> nat
    decreases s,
{
    match s {
        Shape::Object(f) => 1 + fields_size(f),
        _ => 1,
    }
}

pub open spec fn fields_size(f: Seq<(Seq<char>, Shape)>) -> nat
    decreases f,
{
    if f.len() == 0 {
        0
    } else {
        size(f[0].1) + 2 + fields_size(f.drop_first())
    }
}

/// Unification: the smallest shape that represents both `a` and `b`.
pub open spec fn join(a: Shape, b: Shape) -> Shape
    decreases size(a) + size(b),
{
    if a == b {
        a
    } else {
        match a {
            Shape::Variant(s) => match b {
                Shape::Variant(t) => if s.len() == 0 {
                    b
                } else if t.len() == 0 {
                    a
                } else {
                    Shape::Variant(merge_opts(s, t))
                },
                _ => if s.len() == 0 {
                    b
                } else if s.contains(b) {
                    a
                } else {
                    Shape::Variant(merge_opts(s, seq![b]))
                },
            },
            _ => match b {
                Shape::Variant(t) => if t.len() == 0 {
                    a
                } else if t.contains(a) {
                    b
                } else {
                    Shape::Variant(merge_opts(seq![a], t))
                },
                _ => join_plain(a, b),
            },
        }
    }
}

/// Unification of two distinct shapes, neither of them a variant.
pub open spec fn join_plain(a: Shape, b: Shape) -> Shape
    decreases size(a) + size(b), 0nat,
{
    match (a, b) {
        (Shape::Int, Shape::Float) => Shape::Float,
        (Shape::Float, Shape::Int) => Shape::Float,
        (Shape::Object(f), Shape::Object(g)) => Shape::Object(merge_fields(f, g)),
        _ => Shape::Variant(merge_opts(seq![a], seq![b])),
    }
}

/// Union of two field sequences ordered by name: a field on both sides
/// has the two types unified, a field on one side is unified with `Null`.
pub open spec fn merge_fields(f: Seq<(Seq<char>, Shape)>, g: Seq<(Seq<char>, Shape)>) -> Seq<
    (Seq<char>, Shape),
>
    decreases fields_size(f) + fields_size(g),
{
    if f.len() == 0 && g.len() == 0 {
        seq![]
    } else if g.len() == 0 || (f.len() != 0 && cmp_chars(f[0].0, g[0].0) < 0) {
        seq![(f[0].0, join(f[0].1, Shape::Null))] + merge_fields(f.drop_first(), g)
    } else if f.len() == 0 || cmp_chars(f[0].0, g[0].0) > 0 {
        seq![(g[0].0, join(g[0].1, Shape::Null))] + merge_fields(f, g.drop_first())
    } else {
        seq![(f[0].0, join(f[0].1, g[0].1))] + merge_fields(f.drop_first(), g.drop_first())
    }
}

/// The order on character sequences is antisymmetric and relates equal
/// sequences only.
pub proof fn lemma_cmp_chars(a: Seq<char>, b: Seq<char>)
    ensures
        cmp_chars(a, b) == -cmp_chars(b, a),
        cmp_chars(a, b) == 0 <==> a == b,
    decreases a.len(),
{
    if a.len() != 0 && b.len() != 0 && a[0] == b[0] {
        lemma_cmp_chars(a.drop_first(), b.drop_first());
        if a.drop_first() == b.drop_first() {
            assert(a =~= seq![a[0]] + a.drop_first());
            assert(b =~= seq![b[0]] + b.drop_first());
        }
    }
    if a.len() == 0 && b.len() == 0 {
        assert(a =~= b);
    }
}

/// The canonical order on shapes is antisymmetric and relates equal shapes
/// only.
pub proof fn lemma_cmp_shape(a: Shape, b: Shape)
    ensures
        cmp_shape(a, b) == -cmp_shape(b, a),
        cmp_shape(a, b) == 0 <==> a == b,
    decreases a,
{
    match a {
        Shape::Object(f) => match b {
            Shape::Object(g) => lemma_cmp_fields(f, g),
            _ => {},
        },
        Shape::Array(x) => match b {
            Shape::Array(y) => lemma_cmp_shape(*x, *y),
            _ => {},
        },
        Shape::Variant(s) => match b {
            Shape::Variant(t) => lemma_cmp_opts(s, t),
            _ => {},
        },
        _ => {},
    }
}

pub proof fn lemma_cmp_fields(f: Seq<(Seq<char>, Shape)>, g: Seq<(Seq<char>, Shape)>)
    ensures
        cmp_fields(f, g) == -cmp_fields(g, f),
        cmp_fields(f, g) == 0 <==> f == g,
    decreases f,
{
    if f.len() != 0 && g.len() != 0 {
        lemma_cmp_chars(f[0].0, g[0].0);
        lemma_cmp_shape(f[0].1, g[0].1);
        lemma_cmp_fields(f.drop_first(), g.drop_first());
        if f.drop_first() == g.drop_first() && f[0] == g[0] {
            assert(f =~= seq![f[0]] + f.drop_first());
            assert(g =~= seq![g[0]] + g.drop_first());
        }
    }
    if f.len() == 0 && g.len() == 0 {
        assert(f =~= g);
    }
}

pub proof fn lemma_cmp_opts(s: Seq<Shape>, t: Seq<Shape>)
    ensures
        cmp_opts(s, t) == -cmp_opts(t, s),
        cmp_opts(s, t) == 0 <==> s == t,
    decreases s,
{
    if s.len() != 0 && t.len() != 0 {
        lemma_cmp_shape(s[0], t[0]);
        lemma_cmp_opts(s.drop_first(), t.drop_first());
        if s.drop_first() == t.drop_first() && s[0] == t[0] {
            assert(s =~= seq![s[0]] + s.drop_first());
            assert(t =~= seq![t[0]] + t.drop_first());
        }
    }
    if s.len() == 0 && t.len() == 0 {
        assert(s =~= t);
    }
}

/// Merging option sequences does not depend on the order of its operands.
pub proof fn lemma_merge_opts_comm(s: Seq<Shape>, t: Seq<Shape>)
    ensures
        merge_opts(s, t) == merge_opts(t, s),
    decreases s.len() + t.len(),
{
    if s.len() != 0 && t.len() != 0 {
        lemma_cmp_shape(s[0], t[0]);
        if cmp_shape(s[0], t[0]) < 0 {
            lemma_merge_opts_comm(s.drop_first(), t);
        } else if cmp_shape(s[0], t[0]) > 0 {
            lemma_merge_opts_comm(s, t.drop_first());
        } else {
            lemma_merge_opts_comm(s.drop_first(), t.drop_first());
        }
    }
}

/// Commutativity of unification.
pub proof fn lemma_join_comm(a: Shape, b: Shape)
    ensures
        join(a, b) == join(b, a),
    decreases size(a) + size(b),
{
    if a != b {
        match a {
            Shape::Variant(s) => match b {
                Shape::Variant(t) => lemma_merge_opts_comm(s, t),
                _ => lemma_merge_opts_comm(s, seq![b]),
            },
            _ => match b {
                Shape::Variant(t) => lemma_merge_opts_comm(seq![a], t),
                _ => {
                    lemma_merge_opts_comm(seq![a], seq![b]);
                    match (a, b) {
                        (Shape::Object(f), Shape::Object(g)) => lemma_merge_fields_comm(f, g),
                        _ => {},
                    }
                },
            },
        }
    }
}

pub proof fn lemma_merge_fields_comm(f: Seq<(Seq<char>, Shape)>, g: Seq<(Seq<char>, Shape)>)
    ensures
        merge_fields(f, g) == merge_fields(g, f),
    decreases fields_size(f) + fields_size(g),
{
    if f.len() != 0 && g.len() != 0 {
        lemma_cmp_chars(f[0].0, g[0].0);
        if cmp_chars(f[0].0, g[0].0) < 0 {
            lemma_merge_fields_comm(f.drop_first(), g);
        } else if cmp_chars(f[0].0, g[0].0) > 0 {
            lemma_merge_fields_comm(f, g.drop_first());
        } else {
            lemma_join_comm(f[0].1, g[0].1);
            lemma_merge_fields_comm(f.drop_first(), g.drop_first());
        }
    } else if f.len() != 0 {
        lemma_merge_fields_comm(f.drop_first(), g);
    } else if g.len() != 0 {
        lemma_merge_fields_comm(f, g.drop_first());
    }
}

/// The names of a field sequence.
pub open spec fn keys(f: Seq<(Seq<char>, Shape)>) -> Seq<Seq<char>> {
    f.map_values(|p: (Seq<char>, Shape)| p.0)
}

/// Every option of a merge comes from one of its operands, and every
/// option of either operand is in the merge.
pub proof fn lemma_merge_opts_contains(s: Seq<Shape>, t: Seq<Shape>)
    ensures
        forall|x: Shape| #[trigger]
            merge_opts(s, t).contains(x) <==> s.contains(x) || t.contains(x),
    decreases s.len() + t.len(),
{
    if s.len() != 0 && t.len() != 0 {
        lemma_cmp_shape(s[0], t[0]);
        let c = cmp_shape(s[0], t[0]);
        let (s1, t1) = if c < 0 {
            (s.drop_first(), t)
        } else if c > 0 {
            (s, t.drop_first())
        } else {
            (s.drop_first(), t.drop_first())
        };
        let h = if c > 0 {
            t[0]
        } else {
            s[0]
        };
        lemma_merge_opts_contains(s1, t1);
        assert(merge_opts(s, t) == seq![h] + merge_opts(s1, t1));
        assert forall|x: Shape| #[trigger]
            merge_opts(s, t).contains(x) <==> s.contains(x) || t.contains(x) by {
            let m = merge_opts(s1, t1);
            if merge_opts(s, t).contains(x) {
                let j = choose|j: int| 0 <= j < merge_opts(s, t).len() && merge_opts(s, t)[j] == x;
                if j > 0 {
                    assert(m[j - 1] == x);
                    assert(m.contains(x));
                }
                if s1.contains(x) {
                    let k = choose|k: int| 0 <= k < s1.len() && s1[k] == x;
                    if s1 != s {
                        assert(s[k + 1] == x);
                    }
                }
                if t1.contains(x) {
                    let k = choose|k: int| 0 <= k < t1.len() && t1[k] == x;
                    if t1 != t {
                        assert(t[k + 1] == x);
                    }
                }
                assert(s[0] == h || t[0] == h);
            }
            if s.contains(x) {
                let k = choose|k: int| 0 <= k < s.len() && s[k] == x;
                if k == 0 {
                    assert(merge_opts(s, t)[0] == h);
                    assert(h == x || c > 0);
                    if h != x {
                        assert(s1 == s);
                        assert(s1[0] == x);
                        assert(m.contains(x));
                    }
                } else if s1 != s {
                    assert(s1[k - 1] == x);
                } else {
                    assert(s1[k] == x);
                }
                if m.contains(x) {
                    let j = choose|j: int| 0 <= j < m.len() && m[j] == x;
                    assert(merge_opts(s, t)[j + 1] == x);
                }
                if x == h {
                    assert(merge_opts(s, t)[0] == x);
                }
            }
            if t.contains(x) {
                let k = choose|k: int| 0 <= k < t.len() && t[k] == x;
                if k == 0 {
                    if h != x {
                        assert(c < 0);
                        assert(t1[0] == x);
                        assert(m.contains(x));
                    }
                } else if t1 != t {
                    assert(t1[k - 1] == x);
                } else {
                    assert(t1[k] == x);
                }
                if m.contains(x) {
                    let j = choose|j: int| 0 <= j < m.len() && m[j] == x;
                    assert(merge_opts(s, t)[j + 1] == x);
                }
                if x == h {
                    assert(merge_opts(s, t)[0] == x);
                }
            }
        }
    }
}

/// Merging a single option that is not among `s` adds exactly one option.
pub proof fn lemma_merge_opts_one_len(s: Seq<Shape>, t: Shape)
    requires
        !s.contains(t),
    ensures
        merge_opts(s, seq![t]).len() == s.len() + 1,
    decreases s.len(),
{
    if s.len() != 0 {
        lemma_cmp_shape(s[0], t);
        assert(s[0] != t);
        if cmp_shape(s[0], t) < 0 {
            assert(!s.drop_first().contains(t)) by {
                if s.drop_first().contains(t) {
                    let k = choose|k: int| 0 <= k < s.drop_first().len() && s.drop_first()[k] == t;
                    assert(s[k + 1] == t);
                }
            }
            lemma_merge_opts_one_len(s.drop_first(), t);
        } else {
            assert(seq![t].drop_first() =~= Seq::<Shape>::empty());
            assert(merge_opts(s, Seq::<Shape>::empty()) == s);
            assert(merge_opts(s, seq![t]) == seq![t] + s);
        }
    }
}

/// A name of the tail of a field sequence is a name of the sequence.
proof fn lemma_keys_drop_first(f: Seq<(Seq<char>, Shape)>, k: Seq<char>)
    requires
        f.len() > 0,
        keys(f.drop_first()).contains(k),
    ensures
        keys(f).contains(k),
{
    let j = choose|j: int| 0 <= j < keys(f.drop_first()).len() && keys(f.drop_first())[j] == k;
    assert(keys(f)[j + 1] == k);
}

/// Field merging loses no name, and a field on one side only is unified
/// with `Null`.
pub proof fn lemma_merge_fields_keys(f: Seq<(Seq<char>, Shape)>, g: Seq<(Seq<char>, Shape)>)
    ensures
        forall|k: Seq<char>|
            keys(f).contains(k) || keys(g).contains(k) ==> #[trigger] keys(
                merge_fields(f, g),
            ).contains(k),
        forall|i: int|
            0 <= i < f.len() && !keys(g).contains(f[i].0) ==> #[trigger] merge_fields(
                f,
                g,
            ).contains((f[i].0, join(f[i].1, Shape::Null))),
        forall|i: int|
            0 <= i < g.len() && !keys(f).contains(g[i].0) ==> #[trigger] merge_fields(
                f,
                g,
            ).contains((g[i].0, join(g[i].1, Shape::Null))),
    decreases fields_size(f) + fields_size(g),
{
    if f.len() == 0 && g.len() == 0 {
        return;
    }
    let from_f = g.len() == 0 || (f.len() != 0 && cmp_chars(f[0].0, g[0].0) < 0);
    let from_g = !from_f && (f.len() == 0 || cmp_chars(f[0].0, g[0].0) > 0);
    let both = !from_f && !from_g;
    if f.len() != 0 && g.len() != 0 {
        lemma_cmp_chars(f[0].0, g[0].0);
    }
    let f1 = if from_g {
        f
    } else {
        f.drop_first()
    };
    let g1 = if from_f {
        g
    } else {
        g.drop_first()
    };
    let h = if from_f {
        (f[0].0, join(f[0].1, Shape::Null))
    } else if from_g {
        (g[0].0, join(g[0].1, Shape::Null))
    } else {
        (f[0].0, join(f[0].1, g[0].1))
    };
    lemma_merge_fields_keys(f1, g1);
    let m = merge_fields(f1, g1);
    let r = merge_fields(f, g);
    assert(r == seq![h] + m);
    assert forall|x: (Seq<char>, Shape)| m.contains(x) implies r.contains(x) by {
        let j = choose|j: int| 0 <= j < m.len() && m[j] == x;
        assert(r[j + 1] == x);
    }
    assert forall|k: Seq<char>| keys(m).contains(k) implies keys(r).contains(k) by {
        let j = choose|j: int| 0 <= j < keys(m).len() && keys(m)[j] == k;
        assert(keys(r)[j + 1] == k);
    }
    assert(keys(r)[0] == h.0);
    assert forall|k: Seq<char>|
        keys(f).contains(k) || keys(g).contains(k) implies #[trigger] keys(r).contains(k) by {
        if keys(f).contains(k) {
            let i = choose|i: int| 0 <= i < keys(f).len() && keys(f)[i] == k;
            if from_g {
                assert(keys(f1).contains(k));
            } else if i == 0 {
                assert(h.0 == k);
            } else {
                assert(keys(f1)[i - 1] == k);
                assert(keys(f1).contains(k));
            }
        } else {
            let i = choose|i: int| 0 <= i < keys(g).len() && keys(g)[i] == k;
            if from_f {
                assert(keys(g1).contains(k));
            } else if i == 0 {
                assert(h.0 == k);
            } else {
                assert(keys(g1)[i - 1] == k);
                assert(keys(g1).contains(k));
            }
        }
    }
    assert forall|i: int|
        0 <= i < f.len() && !keys(g).contains(f[i].0) implies #[trigger] r.contains(
        (f[i].0, join(f[i].1, Shape::Null)),
    ) by {
        assert(!keys(g1).contains(f[i].0)) by {
            if keys(g1).contains(f[i].0) && g1 != g {
                lemma_keys_drop_first(g, f[i].0);
            }
        }
        if from_g {
            assert(m.contains((f1[i].0, join(f1[i].1, Shape::Null))));
        } else if i == 0 {
            if both {
                assert(keys(g)[0] == f[0].0);
            }
            assert(r[0] == (f[i].0, join(f[i].1, Shape::Null)));
        } else {
            assert(f1[i - 1] == f[i]);
            assert(m.contains((f1[i - 1].0, join(f1[i - 1].1, Shape::Null))));
        }
    }
    assert forall|i: int|
        0 <= i < g.len() && !keys(f).contains(g[i].0) implies #[trigger] r.contains(
        (g[i].0, join(g[i].1, Shape::Null)),
    ) by {
        assert(!keys(f1).contains(g[i].0)) by {
            if keys(f1).contains(g[i].0) && f1 != f {
                lemma_keys_drop_first(f, g[i].0);
            }
        }
        if from_f {
            assert(m.contains((g1[i].0, join(g1[i].1, Shape::Null))));
        } else if i == 0 {
            if both {
                assert(keys(f)[0] == g[0].0);
            }
            assert(r[0] == (g[i].0, join(g[i].1, Shape::Null)));
        } else {
            assert(g1[i - 1] == g[i]);
            assert(m.contains((g1[i - 1].0, join(g1[i - 1].1, Shape::Null))));
        }
    }
}

/// `f` with the field `k` set to `v`: put in its place by name, in place
/// of a field of the same name.
pub open spec fn put_field(f: Seq<(Seq<char>, Shape)>, k: Seq<char>, v: Shape) -> Seq<
    (Seq<char>, Shape),
>
    decreases f.len(),
{
    if f.len() == 0 {
        seq![(k, v)]
    } else if cmp_chars(k, f[0].0) < 0 {
        seq![(k, v)] + f
    } else if cmp_chars(k, f[0].0) == 0 {
        seq![(k, v)] + f.drop_first()
    } else {
        seq![f[0]] + put_field(f.drop_first(), k, v)
    }
}

/// The fields of `f` set one after the other into an empty object; of two
/// fields with one name the later stays.
pub open spec fn fields_from(f: Seq<(Seq<char>, Shape)>) -> Seq<(Seq<char>, Shape)>
    decreases f.len(),
{
    if f.len() == 0 {
        seq![]
    } else {
        put_field(fields_from(f.drop_last()), f.last().0, f.last().1)
    }
}

/// The options of `s` merged one after the other into an empty variant.
pub open spec fn options_from(s: Seq<Shape>) -> Seq<Shape>
    decreases s.len(),
{
    if s.len() == 0 {
        seq![]
    } else {
        merge_opts(options_from(s.drop_last()), seq![s.last()])
    }
}

/// The unification of all of `s`, folded from the left, starting from the
/// empty variant.
pub open spec fn unify_all(s: Seq<Shape>) -> Shape
    decreases s.len(),
{
    if s.len() == 0 {
        Shape::Variant(seq![])
    } else {
        join(unify_all(s.drop_last()), s.last())
    }
}

/// Field names in strictly increasing order.
pub open spec fn fields_sorted(f: Seq<(Seq<char>, Shape)>) -> bool {
    forall|i: int| 0 <= i < f.len() - 1 ==> cmp_chars(#[trigger] f[i].0, f[i + 1].0) < 0
}

/// Options in strictly increasing canonical order.
pub open spec fn opts_sorted(o: Seq<Shape>) -> bool {
    forall|i: int| 0 <= i < o.len() - 1 ==> cmp_shape(#[trigger] o[i], o[i + 1]) < 0
}

/// The invariant of a shape, at every depth: fields ordered by name,
/// options in canonical order, and no variant directly inside a variant.
pub open spec fn wf(s: Shape) -> bool
    decreases s,
{
    match s {
        Shape::Object(f) => fields_sorted(f) && forall|i: int|
            0 <= i < f.len() ==> wf(#[trigger] f[i].1),
        Shape::Array(e) => wf(*e),
        Shape::Variant(o) => opts_sorted(o) && forall|i: int|
            0 <= i < o.len() ==> !(#[trigger] o[i] is Variant) && wf(o[i]),
        _ => true,
    }
}

/// Options that may stand in a variant.
pub open spec fn wf_opts(o: Seq<Shape>) -> bool {
    forall|i: int| 0 <= i < o.len() ==> !(#[trigger] o[i] is Variant) && wf(o[i])
}

proof fn lemma_sorted_cons(h: Shape, m: Seq<Shape>)
    requires
        opts_sorted(m),
        m.len() > 0 ==> cmp_shape(h, m[0]) < 0,
    ensures
        opts_sorted(seq![h] + m),
{
    let r = seq![h] + m;
    assert forall|i: int| 0 <= i < r.len() - 1 implies cmp_shape(#[trigger] r[i], r[i + 1]) < 0 by {
        if i > 0 {
            assert(r[i] == m[i - 1]);
            assert(r[i + 1] == m[i]);
        }
    }
}

proof fn lemma_fields_sorted_cons(h: (Seq<char>, Shape), m: Seq<(Seq<char>, Shape)>)
    requires
        fields_sorted(m),
        m.len() > 0 ==> cmp_chars(h.0, m[0].0) < 0,
    ensures
        fields_sorted(seq![h] + m),
{
    let r = seq![h] + m;
    assert forall|i: int| 0 <= i < r.len() - 1 implies cmp_chars(#[trigger] r[i].0, r[i + 1].0)
        < 0 by {
        if i > 0 {
            assert(r[i] == m[i - 1]);
            assert(r[i + 1] == m[i]);
        }
    }
}

proof fn lemma_sorted_tail(o: Seq<Shape>)
    requires
        opts_sorted(o),
        o.len() > 0,
    ensures
        opts_sorted(o.drop_first()),
{
    let t = o.drop_first();
    assert forall|i: int| 0 <= i < t.len() - 1 implies cmp_shape(#[trigger] t[i], t[i + 1]) < 0 by {
        assert(t[i] == o[i + 1]);
    }
}

proof fn lemma_fields_sorted_tail(f: Seq<(Seq<char>, Shape)>)
    requires
        fields_sorted(f),
        f.len() > 0,
    ensures
        fields_sorted(f.drop_first()),
{
    let t = f.drop_first();
    assert forall|i: int| 0 <= i < t.len() - 1 implies cmp_chars(#[trigger] t[i].0, t[i + 1].0)
        < 0 by {
        assert(t[i] == f[i + 1]);
    }
}

/// Merging sorted option sequences gives a sorted sequence, which starts
/// with the smaller of the two first options.
pub proof fn lemma_merge_opts_sorted(s: Seq<Shape>, t: Seq<Shape>)
    requires
        opts_sorted(s),
        opts_sorted(t),
    ensures
        opts_sorted(merge_opts(s, t)),
        merge_opts(s, t).len() > 0 ==> (merge_opts(s, t)[0] == s[0] && s.len() > 0) || (
        merge_opts(s, t)[0] == t[0] && t.len() > 0),
        s.len() > 0 && t.len() > 0 && cmp_shape(s[0], t[0]) <= 0 ==> merge_opts(s, t)[0] == s[0],
        s.len() > 0 && t.len() > 0 && cmp_shape(s[0], t[0]) > 0 ==> merge_opts(s, t)[0] == t[0],
        s.len() > 0 && t.len() == 0 ==> merge_opts(s, t)[0] == s[0],
        s.len() == 0 && t.len() > 0 ==> merge_opts(s, t)[0] == t[0],
    decreases s.len() + t.len(),
{
    if s.len() != 0 && t.len() != 0 {
        lemma_cmp_shape(s[0], t[0]);
        let c = cmp_shape(s[0], t[0]);
        if c < 0 {
            lemma_sorted_tail(s);
            lemma_merge_opts_sorted(s.drop_first(), t);
            let m = merge_opts(s.drop_first(), t);
            if s.len() > 1 {
                assert(s.drop_first()[0] == s[1]);
            }
            lemma_sorted_cons(s[0], m);
        } else if c > 0 {
            lemma_sorted_tail(t);
            lemma_merge_opts_sorted(s, t.drop_first());
            let m = merge_opts(s, t.drop_first());
            if t.len() > 1 {
                assert(t.drop_first()[0] == t[1]);
            }
            lemma_sorted_cons(t[0], m);
        } else {
            lemma_sorted_tail(s);
            lemma_sorted_tail(t);
            lemma_merge_opts_sorted(s.drop_first(), t.drop_first());
            let m = merge_opts(s.drop_first(), t.drop_first());
            if s.len() > 1 {
                assert(s.drop_first()[0] == s[1]);
            }
            if t.len() > 1 {
                assert(t.drop_first()[0] == t[1]);
            }
            lemma_sorted_cons(s[0], m);
        }
    }
}

/// Every value of a field sequence is well formed.
pub open spec fn wf_values(f: Seq<(Seq<char>, Shape)>) -> bool {
    forall|i: int| 0 <= i < f.len() ==> wf(#[trigger] f[i].1)
}

proof fn lemma_wf_opts_merge(s: Seq<Shape>, t: Seq<Shape>)
    requires
        wf_opts(s),
        wf_opts(t),
    ensures
        wf_opts(merge_opts(s, t)),
{
    lemma_merge_opts_contains(s, t);
    let m = merge_opts(s, t);
    assert forall|i: int| 0 <= i < m.len() implies !(#[trigger] m[i] is Variant) && wf(m[i]) by {
        assert(m.contains(m[i]));
        if s.contains(m[i]) {
            let k = choose|k: int| 0 <= k < s.len() && s[k] == m[i];
        } else {
            let k = choose|k: int| 0 <= k < t.len() && t[k] == m[i];
        }
    }
}

proof fn lemma_wf_single(a: Shape)
    requires
        wf(a),
        !(a is Variant),
    ensures
        wf_opts(seq![a]),
        opts_sorted(seq![a]),
{
}

/// Unification keeps shapes well formed.
pub proof fn lemma_join_wf(a: Shape, b: Shape)
    requires
        wf(a),
        wf(b),
    ensures
        wf(join(a, b)),
    decreases size(a) + size(b),
{
    if a != b {
        match a {
            Shape::Variant(s) => match b {
                Shape::Variant(t) => {
                    lemma_merge_opts_sorted(s, t);
                    lemma_wf_opts_merge(s, t);
                },
                _ => {
                    lemma_wf_single(b);
                    lemma_merge_opts_sorted(s, seq![b]);
                    lemma_wf_opts_merge(s, seq![b]);
                },
            },
            _ => match b {
                Shape::Variant(t) => {
                    lemma_wf_single(a);
                    lemma_merge_opts_sorted(seq![a], t);
                    lemma_wf_opts_merge(seq![a], t);
                },
                _ => {
                    lemma_wf_single(a);
                    lemma_wf_single(b);
                    lemma_merge_opts_sorted(seq![a], seq![b]);
                    lemma_wf_opts_merge(seq![a], seq![b]);
                    match (a, b) {
                        (Shape::Object(f), Shape::Object(g)) => {
                            lemma_merge_fields_wf(f, g);
                        },
                        _ => {},
                    }
                },
            },
        }
    }
}

/// Merging sorted, well formed field sequences gives a sorted, well formed
/// sequence, which starts with the smaller of the two first names.
pub proof fn lemma_merge_fields_wf(f: Seq<(Seq<char>, Shape)>, g: Seq<(Seq<char>, Shape)>)
    requires
        fields_sorted(f),
        fields_sorted(g),
        wf_values(f),
        wf_values(g),
    ensures
        fields_sorted(merge_fields(f, g)),
        wf_values(merge_fields(f, g)),
        f.len() > 0 && (g.len() == 0 || cmp_chars(f[0].0, g[0].0) <= 0) ==> merge_fields(
            f,
            g,
        )[0].0 == f[0].0,
        g.len() > 0 && (f.len() == 0 || cmp_chars(f[0].0, g[0].0) > 0) ==> merge_fields(
            f,
            g,
        )[0].0 == g[0].0,
    decreases fields_size(f) + fields_size(g),
{
    if f.len() == 0 && g.len() == 0 {
        return;
    }
    if f.len() != 0 && g.len() != 0 {
        lemma_cmp_chars(f[0].0, g[0].0);
    }
    let from_f = g.len() == 0 || (f.len() != 0 && cmp_chars(f[0].0, g[0].0) < 0);
    let from_g = !from_f && (f.len() == 0 || cmp_chars(f[0].0, g[0].0) > 0);
    let f1 = if from_g {
        f
    } else {
        f.drop_first()
    };
    let g1 = if from_f {
        g
    } else {
        g.drop_first()
    };
    if !from_g {
        lemma_fields_sorted_tail(f);
        lemma_join_wf(f[0].1, if from_f { Shape::Null } else { g[0].1 });
    }
    if !from_f {
        lemma_fields_sorted_tail(g);
        if from_g {
            lemma_join_wf(g[0].1, Shape::Null);
        }
    }
    assert(wf_values(f1)) by {
        if f1 != f {
            assert forall|i: int| 0 <= i < f1.len() implies wf(#[trigger] f1[i].1) by {
                assert(f1[i] == f[i + 1]);
            }
        }
    }
    assert(wf_values(g1)) by {
        if g1 != g {
            assert forall|i: int| 0 <= i < g1.len() implies wf(#[trigger] g1[i].1) by {
                assert(g1[i] == g[i + 1]);
            }
        }
    }
    lemma_merge_fields_wf(f1, g1);
    let m = merge_fields(f1, g1);
    let h = if from_f {
        (f[0].0, join(f[0].1, Shape::Null))
    } else if from_g {
        (g[0].0, join(g[0].1, Shape::Null))
    } else {
        (f[0].0, join(f[0].1, g[0].1))
    };
    assert(merge_fields(f, g) == seq![h] + m);
    if m.len() > 0 {
        if f1.len() > 0 && f1 != f {
            assert(f1[0] == f[1]);
        }
        if g1.len() > 0 && g1 != g {
            assert(g1[0] == g[1]);
        }
        if f1.len() > 0 && g1.len() > 0 {
            lemma_cmp_chars(f1[0].0, g1[0].0);
        }
        assert(cmp_chars(h.0, m[0].0) < 0);
    }
    lemma_fields_sorted_cons(h, m);
    let r = seq![h] + m;
    assert forall|i: int| 0 <= i < r.len() implies wf(#[trigger] r[i].1) by {
        if i > 0 {
            assert(r[i] == m[i - 1]);
        }
    }
}

/// Setting a field keeps a field sequence sorted and well formed.
pub proof fn lemma_put_field_wf(f: Seq<(Seq<char>, Shape)>, k: Seq<char>, v: Shape)
    requires
        fields_sorted(f),
        wf_values(f),
        wf(v),
    ensures
        fields_sorted(put_field(f, k, v)),
        wf_values(put_field(f, k, v)),
        put_field(f, k, v)[0].0 == (if f.len() == 0 || cmp_chars(k, f[0].0) <= 0 {
            k
        } else {
            f[0].0
        }),
    decreases f.len(),
{
    let r = put_field(f, k, v);
    if f.len() == 0 {
        return;
    }
    lemma_cmp_chars(k, f[0].0);
    lemma_fields_sorted_tail(f);
    let t = f.drop_first();
    assert(wf_values(t)) by {
        assert forall|i: int| 0 <= i < t.len() implies wf(#[trigger] t[i].1) by {
            assert(t[i] == f[i + 1]);
        }
    }
    if t.len() > 0 {
        assert(t[0] == f[1]);
    }
    if cmp_chars(k, f[0].0) < 0 {
        lemma_fields_sorted_cons((k, v), f);
        assert forall|i: int| 0 <= i < r.len() implies wf(#[trigger] r[i].1) by {
            if i > 0 {
                assert(r[i] == f[i - 1]);
            }
        }
    } else if cmp_chars(k, f[0].0) == 0 {
        lemma_fields_sorted_cons((k, v), t);
        assert forall|i: int| 0 <= i < r.len() implies wf(#[trigger] r[i].1) by {
            if i > 0 {
                assert(r[i] == t[i - 1]);
            }
        }
    } else {
        lemma_put_field_wf(t, k, v);
        let m = put_field(t, k, v);
        if t.len() > 0 {
            lemma_cmp_chars(k, t[0].0);
        }
        lemma_fields_sorted_cons(f[0], m);
        assert forall|i: int| 0 <= i < r.len() implies wf(#[trigger] r[i].1) by {
            if i > 0 {
                assert(r[i] == m[i - 1]);
            }
        }
    }
}

/// Fields set one after the other form a sorted, well formed sequence.
pub proof fn lemma_fields_from_wf(f: Seq<(Seq<char>, Shape)>)
    requires
        wf_values(f),
    ensures
        fields_sorted(fields_from(f)),
        wf_values(fields_from(f)),
    decreases f.len(),
{
    if f.len() > 0 {
        let p = f.drop_last();
        assert(wf_values(p)) by {
            assert forall|i: int| 0 <= i < p.len() implies wf(#[trigger] p[i].1) by {
                assert(p[i] == f[i]);
            }
        }
        lemma_fields_from_wf(p);
        lemma_put_field_wf(fields_from(p), f.last().0, f.last().1);
    }
}

/// Options merged one after the other form a sorted, well formed sequence.
pub proof fn lemma_options_from_wf(o: Seq<Shape>)
    requires
        wf_opts(o),
    ensures
        opts_sorted(options_from(o)),
        wf_opts(options_from(o)),
    decreases o.len(),
{
    if o.len() > 0 {
        let p = o.drop_last();
        assert(wf_opts(p)) by {
            assert forall|i: int| 0 <= i < p.len() implies !(#[trigger] p[i] is Variant) && wf(
                p[i],
            ) by {
                assert(p[i] == o[i]);
            }
        }
        lemma_options_from_wf(p);
        lemma_wf_single(o.last());
        lemma_merge_opts_sorted(options_from(p), seq![o.last()]);
        lemma_wf_opts_merge(options_from(p), seq![o.last()]);
    }
}

/// Unifying well formed shapes one after the other gives a well formed shape.
pub proof fn lemma_unify_all_wf(s: Seq<Shape>)
    requires
        forall|i: int| 0 <= i < s.len() ==> wf(#[trigger] s[i]),
    ensures
        wf(unify_all(s)),
    decreases s.len(),
{
    if s.len() > 0 {
        lemma_unify_all_wf(s.drop_last());
        lemma_join_wf(unify_all(s.drop_last()), s.last());
    } else {
        assert(opts_sorted(Seq::<Shape>::empty()));
    }
}

/// The order on character sequences is transitive.
pub proof fn lemma_cmp_chars_trans(a: Seq<char>, b: Seq<char>, c: Seq<char>)
    requires
        cmp_chars(a, b) < 0,
        cmp_chars(b, c) < 0,
    ensures
        cmp_chars(a, c) < 0,
    decreases a.len(),
{
    if a.len() > 0 && b.len() > 0 && c.len() > 0 && a[0] == b[0] && b[0] == c[0] {
        lemma_cmp_chars_trans(a.drop_first(), b.drop_first(), c.drop_first());
    }
}

/// The canonical order on shapes is transitive.
pub proof fn lemma_cmp_shape_trans(a: Shape, b: Shape, c: Shape)
    requires
        cmp_shape(a, b) < 0,
        cmp_shape(b, c) < 0,
    ensures
        cmp_shape(a, c) < 0,
    decreases a,
{
    if tag(a) == tag(b) && tag(b) == tag(c) {
        match (a, b, c) {
            (Shape::Object(f), Shape::Object(g), Shape::Object(h)) => lemma_cmp_fields_trans(f, g, h),
            (Shape::Array(x), Shape::Array(y), Shape::Array(z)) => lemma_cmp_shape_trans(*x, *y, *z),
            (Shape::Variant(s), Shape::Variant(t), Shape::Variant(u)) => lemma_cmp_opts_trans(s, t, u),
            _ => {},
        }
    }
}

pub proof fn lemma_cmp_fields_trans(
    f: Seq<(Seq<char>, Shape)>,
    g: Seq<(Seq<char>, Shape)>,
    h: Seq<(Seq<char>, Shape)>,
)
    requires
        cmp_fields(f, g) < 0,
        cmp_fields(g, h) < 0,
    ensures
        cmp_fields(f, h) < 0,
    decreases f,
{
    if f.len() > 0 && g.len() > 0 && h.len() > 0 {
        lemma_cmp_chars(f[0].0, g[0].0);
        lemma_cmp_chars(g[0].0, h[0].0);
        lemma_cmp_shape(f[0].1, g[0].1);
        lemma_cmp_shape(g[0].1, h[0].1);
        let k1 = cmp_chars(f[0].0, g[0].0);
        let k2 = cmp_chars(g[0].0, h[0].0);
        if k1 != 0 && k2 != 0 {
            lemma_cmp_chars_trans(f[0].0, g[0].0, h[0].0);
        } else if k1 == 0 && k2 == 0 {
            let v1 = cmp_shape(f[0].1, g[0].1);
            let v2 = cmp_shape(g[0].1, h[0].1);
            if v1 != 0 && v2 != 0 {
                lemma_cmp_shape_trans(f[0].1, g[0].1, h[0].1);
            } else if v1 == 0 && v2 == 0 {
                lemma_cmp_fields_trans(f.drop_first(), g.drop_first(), h.drop_first());
            }
        }
    }
}

pub proof fn lemma_cmp_opts_trans(s: Seq<Shape>, t: Seq<Shape>, u: Seq<Shape>)
    requires
        cmp_opts(s, t) < 0,
        cmp_opts(t, u) < 0,
    ensures
        cmp_opts(s, u) < 0,
    decreases s,
{
    if s.len() > 0 && t.len() > 0 && u.len() > 0 {
        lemma_cmp_shape(s[0], t[0]);
        lemma_cmp_shape(t[0], u[0]);
        let v1 = cmp_shape(s[0], t[0]);
        let v2 = cmp_shape(t[0], u[0]);
        if v1 != 0 && v2 != 0 {
            lemma_cmp_shape_trans(s[0], t[0], u[0]);
        } else if v1 == 0 && v2 == 0 {
            lemma_cmp_opts_trans(s.drop_first(), t.drop_first(), u.drop_first());
        }
    }
}

/// In sorted options every earlier option is below every later one.
pub proof fn lemma_opts_sorted_pairs(o: Seq<Shape>, i: int, j: int)
    requires
        opts_sorted(o),
        0 <= i < j < o.len(),
    ensures
        cmp_shape(o[i], o[j]) < 0,
    decreases j - i,
{
    if j > i + 1 {
        lemma_opts_sorted_pairs(o, i, j - 1);
        assert(cmp_shape(o[j - 1], o[j]) < 0);
        lemma_cmp_shape_trans(o[i], o[j - 1], o[j]);
    }
}

/// In sorted fields every earlier name is below every later one.
pub proof fn lemma_fields_sorted_pairs(f: Seq<(Seq<char>, Shape)>, i: int, j: int)
    requires
        fields_sorted(f),
        0 <= i < j < f.len(),
    ensures
        cmp_chars(f[i].0, f[j].0) < 0,
    decreases j - i,
{
    if j > i + 1 {
        lemma_fields_sorted_pairs(f, i, j - 1);
        assert(cmp_chars(f[j - 1].0, f[j].0) < 0);
        lemma_cmp_chars_trans(f[i].0, f[j - 1].0, f[j].0);
    }
}

} // verus!
