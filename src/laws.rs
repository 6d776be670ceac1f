//! Algebraic laws of unification, proved over the shape model that
//! `DataType::unify` is specified by.
use vstd::prelude::*;
use crate::declare::{
    composites, decl_name, emitted, lemma_decl_name_injective, lemma_emitted_numbered, numbered,
};
use crate::shape::{
    join, join_plain, keys, lemma_cmp_chars, lemma_cmp_shape, lemma_fields_sorted_pairs,
    lemma_opts_sorted_pairs, wf, lemma_join_comm, lemma_merge_fields_keys, lemma_merge_opts_contains,
    lemma_merge_opts_one_len, merge_fields, merge_opts, Shape,
};

verus! {

/// Unifying a type with itself gives that type.
pub proof fn unify_idempotent(t: Shape)
    ensures
        join(t, t) == t,
{
}

/// The empty variant is the identity of unification, on either side.
pub proof fn unify_identity(t: Shape)
    ensures
        join(Shape::Variant(Seq::empty()), t) == t,
        join(t, Shape::Variant(Seq::empty())) == t,
{
    let e = Shape::Variant(Seq::<Shape>::empty());
    if t != e {
        match t {
            Shape::Variant(s) => {
                assert(s.len() != 0) by {
                    if s.len() == 0 {
                        assert(s =~= Seq::<Shape>::empty());
                    }
                }
            },
            _ => {},
        }
    }
}

/// The order of the operands does not change the result of unification.
pub proof fn unify_commutative(a: Shape, b: Shape)
    ensures
        join(a, b) == join(b, a),
{
    lemma_join_comm(a, b);
}

/// An integer unified with a float, in either order, widens to a float.
pub proof fn unify_widens_numbers()
    ensures
        join(Shape::Int, Shape::Float) == Shape::Float,
        join(Shape::Float, Shape::Int) == Shape::Float,
{
}

/// Unifying two objects gives an object that has every field name of
/// either, where a field of one side only has its type unified with `Null`.
pub proof fn unify_objects_keep_fields(a: Seq<(Seq<char>, Shape)>, b: Seq<(Seq<char>, Shape)>)
    ensures
        join(Shape::Object(a), Shape::Object(b)) is Object,
        forall|k: Seq<char>|
            keys(a).contains(k) || keys(b).contains(k) ==> #[trigger] keys(
                join(Shape::Object(a), Shape::Object(b))->Object_0,
            ).contains(k),
        forall|i: int|
            0 <= i < a.len() && !keys(b).contains(a[i].0) ==> #[trigger] join(
                Shape::Object(a),
                Shape::Object(b),
            )->Object_0.contains((a[i].0, join(a[i].1, Shape::Null))),
        forall|i: int|
            0 <= i < b.len() && !keys(a).contains(b[i].0) ==> #[trigger] join(
                Shape::Object(a),
                Shape::Object(b),
            )->Object_0.contains((b[i].0, join(b[i].1, Shape::Null))),
{
    if a != b {
        lemma_merge_fields_keys(a, b);
        assert(Shape::Object(a) != Shape::Object(b));
        assert(join_plain(Shape::Object(a), Shape::Object(b)) == Shape::Object(
            merge_fields(a, b),
        ));
        assert(join(Shape::Object(a), Shape::Object(b)) == Shape::Object(merge_fields(a, b)));
    } else {
        assert(join(Shape::Object(a), Shape::Object(b)) == Shape::Object(a));
        assert forall|i: int| 0 <= i < a.len() implies keys(b).contains(#[trigger] a[i].0) by {
            assert(keys(b)[i] == a[i].0);
        }
    }
}

/// A non-empty variant unified with a type that is not a variant: a type
/// among its options leaves it unchanged, any other type is added as one
/// more option, with no option lost.
pub proof fn unify_variant_growth(s: Seq<Shape>, t: Shape)
    requires
        s.len() > 0,
        !(t is Variant),
    ensures
        s.contains(t) ==> join(Shape::Variant(s), t) == Shape::Variant(s),
        !s.contains(t) ==> join(Shape::Variant(s), t) is Variant,
        !s.contains(t) ==> join(Shape::Variant(s), t)->Variant_0.len() == s.len() + 1,
        !s.contains(t) ==> forall|x: Shape| #[trigger]
            join(Shape::Variant(s), t)->Variant_0.contains(x) <==> s.contains(x) || x == t,
{
    if !s.contains(t) {
        lemma_merge_opts_contains(s, seq![t]);
        lemma_merge_opts_one_len(s, t);
        assert forall|x: Shape| #[trigger]
            merge_opts(s, seq![t]).contains(x) <==> s.contains(x) || x == t by {
            assert(seq![t].contains(x) <==> x == t) by {
                if x == t {
                    assert(seq![t][0] == x);
                }
            }
        }
    }
}

/// Declaring a type emits exactly one declaration per object and variant
/// in it, numbered from `n` with distinct numbers below `n` plus that
/// count; each declaration opens with its own name, and no two share one.
pub proof fn declare_totality(t: Shape, n: nat)
    ensures
        numbered(emitted(t, n), n, composites(t)),
        forall|i: int, j: int|
            0 <= i < j < emitted(t, n).len() ==> decl_name(#[trigger] emitted(t, n)[i].0)
                != decl_name(#[trigger] emitted(t, n)[j].0),
{
    lemma_emitted_numbered(t, n);
    assert forall|i: int, j: int| 0 <= i < j < emitted(t, n).len() implies decl_name(
        #[trigger] emitted(t, n)[i].0,
    ) != decl_name(#[trigger] emitted(t, n)[j].0) by {
        lemma_decl_name_injective(emitted(t, n)[i].0, emitted(t, n)[j].0);
    }
}

/// A well formed object names each field once, and a well formed variant
/// holds each option once.
pub proof fn well_formed_members_unique(t: Shape)
    requires
        wf(t),
    ensures
        t is Object ==> forall|i: int, j: int|
            0 <= i < j < t->Object_0.len() ==> #[trigger] t->Object_0[i].0
                != #[trigger] t->Object_0[j].0,
        t is Variant ==> forall|i: int, j: int|
            0 <= i < j < t->Variant_0.len() ==> #[trigger] t->Variant_0[i]
                != #[trigger] t->Variant_0[j],
{
    match t {
        Shape::Object(f) => {
            assert forall|i: int, j: int| 0 <= i < j < f.len() implies #[trigger] f[i].0
                != #[trigger] f[j].0 by {
                lemma_fields_sorted_pairs(f, i, j);
                lemma_cmp_chars(f[i].0, f[j].0);
            }
        },
        Shape::Variant(o) => {
            assert forall|i: int, j: int| 0 <= i < j < o.len() implies #[trigger] o[i]
                != #[trigger] o[j] by {
                lemma_opts_sorted_pairs(o, i, j);
                lemma_cmp_shape(o[i], o[j]);
            }
        },
        _ => {},
    }
}

} // verus!
