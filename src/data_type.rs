//! Inferred types of JSON values, their canonical order and their
//! unification.
use vstd::prelude::*;
use vstd::string::*;
use crate::shape::{
    cmp_chars, cmp_fields, cmp_opts, cmp_shape, fields_size, join, join_plain, lemma_cmp_chars,
    lemma_cmp_shape, lemma_fields_from_wf, lemma_join_wf, lemma_options_from_wf, merge_fields,
    merge_opts, options_from, fields_from, put_field, size, tag, wf, wf_opts, wf_values, Shape,
};

verus! {

/// Types of data in a JSON structure.
///
/// The fields of an `Object` are kept ordered by name, without repetition,
/// and the options of a `Variant` in the canonical order of `cmp_shape`.
#[derive(Debug)]
pub enum DataType {
    /// Data that is always null. In practice, this is usually combined
    /// with `Variant` to create an optional value.
    Null,
    /// A string of characters.
    String,
    /// A number that must always be an integer.
    Int,
    /// A number that can be either a float or an integer.
    Float,
    /// A boolean.
    Bool,
    /// A heterogeneous data structure with named elements, like a struct.
    Object(Vec<(String, DataType)>),
    /// An array of elements with the same type.
    Array(Box<DataType>),
    /// One of several possible types. An empty variant also stands for an
    /// unknown type.
    Variant(Vec<DataType>),
}

/// The shapes of a sequence of types.
pub open spec fn shapes(v: Seq<DataType>) -> Seq<Shape>
    decreases v,
{
    Seq::new(
        v.len(),
        |i: int|
            if 0 <= i < v.len() {
                v[i].shape()
            } else {
                Shape::Null
            },
    )
}

/// The shapes of a sequence of named fields.
pub open spec fn field_shapes(v: Seq<(String, DataType)>) -> Seq<(Seq<char>, Shape)>
    decreases v,
{
    Seq::new(
        v.len(),
        |i: int|
            if 0 <= i < v.len() {
                (v[i].0@, v[i].1.shape())
            } else {
                (Seq::empty(), Shape::Null)
            },
    )
}

impl DataType {
    /// The shape that this type denotes.
    pub open spec fn shape(self) -> Shape
        decreases self,
    {
        match self {
            DataType::Null => Shape::Null,
            DataType::String => Shape::Str,
            DataType::Int => Shape::Int,
            DataType::Float => Shape::Float,
            DataType::Bool => Shape::Bool,
            DataType::Object(fs) => Shape::Object(field_shapes(fs@)),
            DataType::Array(e) => Shape::Array(Box::new(e.shape())),
            DataType::Variant(os) => Shape::Variant(shapes(os@)),
        }
    }

    /// The type's invariant: fields ordered by name, options in canonical
    /// order, no variant directly inside a variant, at every depth.
    pub open spec fn well_formed(self) -> bool {
        wf(self.shape())
    }

    fn kind_rank(&self) -> (r: u8)
        ensures
            r as int == tag(self.shape()),
    {
        match self {
            DataType::Null => 0,
            DataType::String => 1,
            DataType::Int => 2,
            DataType::Float => 3,
            DataType::Bool => 4,
            DataType::Object(_) => 5,
            DataType::Array(_) => 6,
            DataType::Variant(_) => 7,
        }
    }
}

/// Compares two strings by code point, as `String`'s own order does.
pub fn compare_keys(a: &String, b: &String) -> (r: i8)
    ensures
        r as int == cmp_chars(a@, b@),
{
    let sa = a.as_str();
    let sb = b.as_str();
    let la = sa.unicode_len();
    let lb = sb.unicode_len();
    let mut i: usize = 0;
    proof {
        assert(a@.skip(0) =~= a@);
        assert(b@.skip(0) =~= b@);
    }
    while i < la && i < lb
        invariant
            sa@ == a@,
            sb@ == b@,
            la == a@.len(),
            lb == b@.len(),
            i <= la,
            i <= lb,
            cmp_chars(a@, b@) == cmp_chars(a@.skip(i as int), b@.skip(i as int)),
        decreases la - i,
    {
        let ca = sa.get_char(i);
        let cb = sb.get_char(i);
        if ca != cb {
            if (ca as u32) < (cb as u32) {
                return -1;
            } else {
                return 1;
            }
        }
        proof {
            assert(a@.skip(i as int).drop_first() =~= a@.skip(i + 1));
            assert(b@.skip(i as int).drop_first() =~= b@.skip(i + 1));
        }
        i += 1;
    }
    if i < la {
        1
    } else if i < lb {
        -1
    } else {
        0
    }
}

impl DataType {
    /// Compares two types in the canonical order: by kind, then by their
    /// contents, lexicographically. The result is -1, 0 or 1.
    pub fn compare(&self, other: &DataType) -> (r: i8)
        ensures
            r as int == cmp_shape(self.shape(), other.shape()),
        decreases self,
    {
        let ka = self.kind_rank();
        let kb = other.kind_rank();
        if ka != kb {
            return if ka < kb {
                -1
            } else {
                1
            };
        }
        match self {
            DataType::Object(f) => match other {
                DataType::Object(g) => {
                    let ghost fs = field_shapes(f@);
                    let ghost gs = field_shapes(g@);
                    let mut i: usize = 0;
                    proof {
                        assert(fs.skip(0) =~= fs);
                        assert(gs.skip(0) =~= gs);
                    }
                    while i < f.len() && i < g.len()
                        invariant
                            *self == DataType::Object(*f),
                            *other == DataType::Object(*g),
                            fs == field_shapes(f@),
                            gs == field_shapes(g@),
                            i <= f.len(),
                            i <= g.len(),
                            cmp_fields(fs, gs) == cmp_fields(fs.skip(i as int), gs.skip(i as int)),
                        decreases f.len() - i,
                    {
                        proof {
                            broadcast use vstd::std_specs::vec::axiom_vec_index_decreases;

                            assert(decreases_to!(*f => f[i as int]));
                            assert(fs.skip(i as int)[0] == (f@[i as int].0@, f@[i as int].1.shape()));
                            assert(gs.skip(i as int)[0] == (g@[i as int].0@, g@[i as int].1.shape()));
                        }
                        let c = compare_keys(&f[i].0, &g[i].0);
                        if c != 0 {
                            return c;
                        }
                        let d = f[i].1.compare(&g[i].1);
                        if d != 0 {
                            return d;
                        }
                        proof {
                            assert(fs.skip(i as int).drop_first() =~= fs.skip(i + 1));
                            assert(gs.skip(i as int).drop_first() =~= gs.skip(i + 1));
                        }
                        i += 1;
                    }
                    if i < f.len() {
                        1
                    } else if i < g.len() {
                        -1
                    } else {
                        0
                    }
                },
                _ => 0,
            },
            DataType::Array(x) => match other {
                DataType::Array(y) => x.compare(y),
                _ => 0,
            },
            DataType::Variant(s) => match other {
                DataType::Variant(t) => {
                    let ghost ss = shapes(s@);
                    let ghost ts = shapes(t@);
                    let mut i: usize = 0;
                    proof {
                        assert(ss.skip(0) =~= ss);
                        assert(ts.skip(0) =~= ts);
                    }
                    while i < s.len() && i < t.len()
                        invariant
                            *self == DataType::Variant(*s),
                            *other == DataType::Variant(*t),
                            ss == shapes(s@),
                            ts == shapes(t@),
                            i <= s.len(),
                            i <= t.len(),
                            cmp_opts(ss, ts) == cmp_opts(ss.skip(i as int), ts.skip(i as int)),
                        decreases s.len() - i,
                    {
                        proof {
                            broadcast use vstd::std_specs::vec::axiom_vec_index_decreases;

                            assert(decreases_to!(*s => s[i as int]));
                            assert(ss.skip(i as int)[0] == s@[i as int].shape());
                            assert(ts.skip(i as int)[0] == t@[i as int].shape());
                        }
                        let d = s[i].compare(&t[i]);
                        if d != 0 {
                            return d;
                        }
                        proof {
                            assert(ss.skip(i as int).drop_first() =~= ss.skip(i + 1));
                            assert(ts.skip(i as int).drop_first() =~= ts.skip(i + 1));
                        }
                        i += 1;
                    }
                    if i < s.len() {
                        1
                    } else if i < t.len() {
                        -1
                    } else {
                        0
                    }
                },
                _ => 0,
            },
            _ => 0,
        }
    }
}

impl PartialEq for DataType {
    /// Structural equality: both types denote the same shape.
    fn eq(&self, other: &DataType) -> (r: bool) {
        proof {
            lemma_cmp_shape(self.shape(), other.shape());
        }
        self.compare(other) == 0
    }
}

impl vstd::std_specs::cmp::PartialEqSpecImpl for DataType {
    open spec fn obeys_eq_spec() -> bool {
        true
    }

    open spec fn eq_spec(&self, other: &DataType) -> bool {
        self.shape() == other.shape()
    }
}

pub(crate) proof fn lemma_shapes_drop_first(v: Seq<DataType>)
    requires
        v.len() > 0,
    ensures
        shapes(v.drop_first()) == shapes(v).drop_first(),
        shapes(v) == seq![v[0].shape()] + shapes(v.drop_first()),
{
    assert(shapes(v.drop_first()) =~= shapes(v).drop_first());
    assert(shapes(v) =~= seq![v[0].shape()] + shapes(v.drop_first()));
}

proof fn lemma_shapes_push(v: Seq<DataType>, x: DataType)
    ensures
        shapes(v.push(x)) == shapes(v).push(x.shape()),
{
    assert(shapes(v.push(x)) =~= shapes(v).push(x.shape()));
}

pub(crate) proof fn lemma_field_shapes_drop_first(v: Seq<(String, DataType)>)
    requires
        v.len() > 0,
    ensures
        field_shapes(v.drop_first()) == field_shapes(v).drop_first(),
        field_shapes(v)[0] == (v[0].0@, v[0].1.shape()),
{
    assert(field_shapes(v.drop_first()) =~= field_shapes(v).drop_first());
}

proof fn lemma_field_shapes_push(v: Seq<(String, DataType)>, x: (String, DataType))
    ensures
        field_shapes(v.push(x)) == field_shapes(v).push((x.0@, x.1.shape())),
{
    assert(field_shapes(v.push(x)) =~= field_shapes(v).push((x.0@, x.1.shape())));
}

/// Whether `v` holds an option of the same shape as `x`.
fn contains_type(v: &Vec<DataType>, x: &DataType) -> (r: bool)
    ensures
        r == shapes(v@).contains(x.shape()),
{
    let mut i: usize = 0;
    while i < v.len()
        invariant
            i <= v.len(),
            forall|j: int| 0 <= j < i ==> shapes(v@)[j] != x.shape(),
        decreases v.len() - i,
    {
        proof {
            lemma_cmp_shape(v@[i as int].shape(), x.shape());
        }
        if v[i].compare(x) == 0 {
            assert(shapes(v@)[i as int] == x.shape());
            return true;
        }
        i += 1;
    }
    false
}

/// Merges two option lists in canonical order, keeping one of two options
/// of the same shape.
fn merge_options(s: Vec<DataType>, t: Vec<DataType>) -> (r: Vec<DataType>)
    ensures
        shapes(r@) == merge_opts(shapes(s@), shapes(t@)),
{
    let ghost goal = merge_opts(shapes(s@), shapes(t@));
    let mut s = s;
    let mut t = t;
    let mut r: Vec<DataType> = Vec::new();
    assert(shapes(r@) + merge_opts(shapes(s@), shapes(t@)) =~= goal);
    while s.len() > 0 || t.len() > 0
        invariant
            shapes(r@) + merge_opts(shapes(s@), shapes(t@)) == goal,
        decreases s.len() + t.len(),
    {
        let ghost ss = shapes(s@);
        let ghost ts = shapes(t@);
        let ghost rs = shapes(r@);
        if s.len() == 0 {
            proof {
                lemma_shapes_drop_first(t@);
            }
            let x = t.remove(0);
            proof {
                lemma_shapes_push(r@, x);
                assert(s@ =~= Seq::<DataType>::empty());
                assert(shapes(r@.push(x)) + merge_opts(shapes(s@), shapes(t@)) =~= rs + ts);
            }
            r.push(x);
        } else if t.len() == 0 {
            proof {
                lemma_shapes_drop_first(s@);
            }
            let x = s.remove(0);
            proof {
                lemma_shapes_push(r@, x);
                assert(t@ =~= Seq::<DataType>::empty());
                assert(shapes(r@.push(x)) + merge_opts(shapes(s@), shapes(t@)) =~= rs + ss);
            }
            r.push(x);
        } else {
            proof {
                lemma_shapes_drop_first(s@);
                lemma_shapes_drop_first(t@);
            }
            let c = s[0].compare(&t[0]);
            if c < 0 {
                let x = s.remove(0);
                proof {
                    lemma_shapes_push(r@, x);
                    assert(shapes(r@.push(x)) + merge_opts(shapes(s@), shapes(t@)) =~= rs
                        + merge_opts(ss, ts));
                }
                r.push(x);
            } else if c > 0 {
                let x = t.remove(0);
                proof {
                    lemma_shapes_push(r@, x);
                    assert(shapes(r@.push(x)) + merge_opts(shapes(s@), shapes(t@)) =~= rs
                        + merge_opts(ss, ts));
                }
                r.push(x);
            } else {
                let x = s.remove(0);
                let _ = t.remove(0);
                proof {
                    lemma_shapes_push(r@, x);
                    assert(shapes(r@.push(x)) + merge_opts(shapes(s@), shapes(t@)) =~= rs
                        + merge_opts(ss, ts));
                }
                r.push(x);
            }
        }
    }
    proof {
        assert(s@ =~= Seq::<DataType>::empty());
        assert(shapes(r@) =~= goal);
    }
    r
}

impl DataType {
    /// Generates a data type that can represent something of this type or
    /// of the `other` type.
    pub fn unify(self, other: DataType) -> (r: DataType)
        ensures
            r.shape() == join(self.shape(), other.shape()),
            self.well_formed() && other.well_formed() ==> r.well_formed(),
        decreases size(self.shape()) + size(other.shape()), 1nat,
    {
        proof {
            lemma_cmp_shape(self.shape(), other.shape());
            if self.well_formed() && other.well_formed() {
                lemma_join_wf(self.shape(), other.shape());
            }
        }
        if self.compare(&other) == 0 {
            return self;
        }
        let ghost sa = self.shape();
        let ghost sb = other.shape();
        let r = match self {
            DataType::Variant(s) => match other {
                DataType::Variant(t) => {
                    if s.len() == 0 {
                        assert(sa == Shape::Variant(shapes(s@)) && shapes(s@).len() == 0);
                        assert(join(sa, sb) == sb);
                        DataType::Variant(t)
                    } else if t.len() == 0 {
                        assert(sb == Shape::Variant(shapes(t@)) && shapes(t@).len() == 0);
                        assert(sa == Shape::Variant(shapes(s@)) && shapes(s@).len() != 0);
                        assert(join(sa, sb) == sa);
                        DataType::Variant(s)
                    } else {
                        let r = DataType::Variant(merge_options(s, t));
                        assert(r.shape() == join(sa, sb));
                        r
                    }
                },
                b => {
                    assert(!(b.shape() is Variant));
                    if s.len() == 0 {
                        assert(sa == Shape::Variant(shapes(s@)) && shapes(s@).len() == 0);
                        assert(join(sa, sb) == sb);
                        b
                    } else if contains_type(&s, &b) {
                        assert(join(sa, sb) == sa);
                        DataType::Variant(s)
                    } else {
                        let one = vec![b];
                        proof {
                            assert(shapes(one@) =~= seq![b.shape()]);
                        }
                        let r = DataType::Variant(merge_options(s, one));
                        assert(r.shape() == join(sa, sb));
                        r
                    }
                },
            },
            a => match other {
                DataType::Variant(t) => {
                    if t.len() == 0 {
                        assert(sb == Shape::Variant(shapes(t@)) && shapes(t@).len() == 0);
                        assert(join(sa, sb) == sa);
                        a
                    } else if contains_type(&t, &a) {
                        assert(join(sa, sb) == sb);
                        DataType::Variant(t)
                    } else {
                        let one = vec![a];
                        proof {
                            assert(shapes(one@) =~= seq![a.shape()]);
                        }
                        let r = DataType::Variant(merge_options(one, t));
                        assert(r.shape() == join(sa, sb));
                        r
                    }
                },
                b => {
                    let r = unify_plain(a, b);
                    assert(r.shape() == join(sa, sb));
                    r
                },
            },
        };
        assert(r.shape() == join(sa, sb));
        r
    }
}

/// Unifies two types of different shapes, neither of them a variant.
fn unify_plain(a: DataType, b: DataType) -> (r: DataType)
    requires
        a.shape() != b.shape(),
        !(a.shape() is Variant),
        !(b.shape() is Variant),
    ensures
        r.shape() == join_plain(a.shape(), b.shape()),
    decreases size(a.shape()) + size(b.shape()), 0nat,
{
    match (a, b) {
        (DataType::Int, DataType::Float) => DataType::Float,
        (DataType::Float, DataType::Int) => DataType::Float,
        (DataType::Object(f), DataType::Object(g)) => DataType::Object(unify_fields(f, g)),
        (a, b) => {
            let one = vec![a];
            let two = vec![b];
            proof {
                assert(shapes(one@) =~= seq![a.shape()]);
                assert(shapes(two@) =~= seq![b.shape()]);
            }
            DataType::Variant(merge_options(one, two))
        },
    }
}

/// Unifies two field lists ordered by name.
fn unify_fields(f: Vec<(String, DataType)>, g: Vec<(String, DataType)>) -> (r: Vec<
    (String, DataType),
>)
    ensures
        field_shapes(r@) == merge_fields(field_shapes(f@), field_shapes(g@)),
    decreases fields_size(field_shapes(f@)) + fields_size(field_shapes(g@)), 2nat,
{
    let ghost goal = merge_fields(field_shapes(f@), field_shapes(g@));
    let ghost bound = fields_size(field_shapes(f@)) + fields_size(field_shapes(g@));
    let mut left = f;
    let mut right = g;
    let mut r: Vec<(String, DataType)> = Vec::new();
    assert(field_shapes(r@) + merge_fields(field_shapes(left@), field_shapes(right@)) =~= goal);
    while left.len() > 0 || right.len() > 0
        invariant
            field_shapes(r@) + merge_fields(field_shapes(left@), field_shapes(right@)) == goal,
            fields_size(field_shapes(left@)) + fields_size(field_shapes(right@)) <= bound,
            bound == fields_size(field_shapes(f@)) + fields_size(field_shapes(g@)),
        decreases left.len() + right.len(),
    {
        let ghost fs = field_shapes(left@);
        let ghost gs = field_shapes(right@);
        let ghost rs = field_shapes(r@);
        let c: i8 = if left.len() == 0 {
            1
        } else if right.len() == 0 {
            -1
        } else {
            compare_keys(&left[0].0, &right[0].0)
        };
        if c < 0 {
            proof {
                lemma_field_shapes_drop_first(left@);
            }
            proof {
                if left.len() > 0 {
                    assert(fields_size(fs) == size(fs[0].1) + 2 + fields_size(fs.drop_first()));
                }
                if right.len() > 0 {
                    assert(fields_size(gs) == size(gs[0].1) + 2 + fields_size(gs.drop_first()));
                }
            }
            let (k, v) = left.remove(0);
            let u = v.unify(DataType::Null);
            proof {
                lemma_field_shapes_push(r@, (k, u));
                assert(field_shapes(r@.push((k, u))) + merge_fields(
                    field_shapes(left@),
                    field_shapes(right@),
                ) =~= rs + merge_fields(fs, gs));
            }
            r.push((k, u));
        } else if c > 0 {
            proof {
                lemma_field_shapes_drop_first(right@);
            }
            proof {
                if left.len() > 0 {
                    assert(fields_size(fs) == size(fs[0].1) + 2 + fields_size(fs.drop_first()));
                }
                if right.len() > 0 {
                    assert(fields_size(gs) == size(gs[0].1) + 2 + fields_size(gs.drop_first()));
                }
            }
            let (k, v) = right.remove(0);
            let u = v.unify(DataType::Null);
            proof {
                lemma_field_shapes_push(r@, (k, u));
                assert(field_shapes(r@.push((k, u))) + merge_fields(
                    field_shapes(left@),
                    field_shapes(right@),
                ) =~= rs + merge_fields(fs, gs));
            }
            r.push((k, u));
        } else {
            proof {
                lemma_field_shapes_drop_first(left@);
                lemma_field_shapes_drop_first(right@);
                lemma_cmp_chars(left@[0].0@, right@[0].0@);
            }
            proof {
                if left.len() > 0 {
                    assert(fields_size(fs) == size(fs[0].1) + 2 + fields_size(fs.drop_first()));
                }
                if right.len() > 0 {
                    assert(fields_size(gs) == size(gs[0].1) + 2 + fields_size(gs.drop_first()));
                }
            }
            let (k, v) = left.remove(0);
            let (_, w) = right.remove(0);
            let u = v.unify(w);
            proof {
                lemma_field_shapes_push(r@, (k, u));
                assert(field_shapes(r@.push((k, u))) + merge_fields(
                    field_shapes(left@),
                    field_shapes(right@),
                ) =~= rs + merge_fields(fs, gs));
            }
            r.push((k, u));
        }
    }
    proof {
        assert(left@ =~= Seq::<(String, DataType)>::empty());
        assert(right@ =~= Seq::<(String, DataType)>::empty());
        assert(field_shapes(r@) =~= goal);
    }
    r
}

/// Sets the field `k` of the ordered field list `f` to `v`.
pub(crate) fn put_field_in(f: &mut Vec<(String, DataType)>, k: String, v: DataType)
    ensures
        field_shapes(final(f)@) == put_field(field_shapes(old(f)@), k@, v.shape()),
{
    let ghost fs = field_shapes(f@);
    let mut i: usize = 0;
    proof {
        assert(fs.take(0) + fs.skip(0) =~= fs);
        assert(fs.skip(0) =~= fs);
    }
    while i < f.len()
        invariant
            i <= f.len(),
            f@ == old(f)@,
            fs == field_shapes(f@),
            put_field(fs, k@, v.shape()) == fs.take(i as int) + put_field(
                fs.skip(i as int),
                k@,
                v.shape(),
            ),
        decreases f.len() - i,
    {
        let c = compare_keys(&k, &f[i].0);
        let ghost rest = fs.skip(i as int);
        proof {
            assert(rest[0] == (f@[i as int].0@, f@[i as int].1.shape()));
        }
        if c < 0 {
            let ghost kv = (k@, v.shape());
            f.insert(i, (k, v));
            proof {
                assert(field_shapes(f@) =~= fs.take(i as int) + (seq![kv] + rest));
            }
            return;
        } else if c == 0 {
            let ghost kv = (k@, v.shape());
            f.set(i, (k, v));
            proof {
                assert(field_shapes(f@) =~= fs.take(i as int) + (seq![kv] + rest.drop_first()));
            }
            return;
        }
        proof {
            assert(fs.take(i as int) + (seq![rest[0]] + put_field(rest.drop_first(), k@, v.shape()))
                =~= fs.take(i + 1) + put_field(fs.skip(i + 1), k@, v.shape())) by {
                assert(rest.drop_first() =~= fs.skip(i + 1));
            }
        }
        i += 1;
    }
    let ghost kv = (k@, v.shape());
    f.push((k, v));
    proof {
        assert(fs.skip(i as int) =~= Seq::<(Seq<char>, Shape)>::empty());
        assert(fs.take(i as int) =~= fs);
        assert(field_shapes(f@) =~= fs + seq![kv]);
    }
}

impl DataType {
    /// An object type with the given fields, ordered by name; of two fields
    /// with one name the later stays.
    pub fn object_of(fields: Vec<(String, DataType)>) -> (r: DataType)
        ensures
            r.shape() == Shape::Object(fields_from(field_shapes(fields@))),
            wf_values(field_shapes(fields@)) ==> r.well_formed(),
    {
        proof {
            if wf_values(field_shapes(fields@)) {
                lemma_fields_from_wf(field_shapes(fields@));
            }
        }
        let ghost all = field_shapes(fields@);
        let mut rest = fields;
        let mut acc: Vec<(String, DataType)> = Vec::new();
        let ghost done: int = 0;
        proof {
            assert(all.take(0) =~= Seq::<(Seq<char>, Shape)>::empty());
            assert(field_shapes(acc@) =~= Seq::<(Seq<char>, Shape)>::empty());
            assert(field_shapes(rest@) =~= all.skip(0));
        }
        while rest.len() > 0
            invariant
                0 <= done <= all.len(),
                field_shapes(rest@) == all.skip(done),
                field_shapes(acc@) == fields_from(all.take(done)),
            decreases rest.len(),
        {
            proof {
                lemma_field_shapes_drop_first(rest@);
            }
            let (k, v) = rest.remove(0);
            proof {
                assert(all.take(done + 1).drop_last() =~= all.take(done));
                assert(all[done] == (k@, v.shape()));
                assert(all.skip(done + 1) =~= all.skip(done).drop_first());
            }
            put_field_in(&mut acc, k, v);
            proof {
                done = done + 1;
            }
        }
        proof {
            assert(all.take(done) =~= all);
        }
        DataType::Object(acc)
    }

    /// A variant type with the given options, in canonical order and each
    /// shape once.
    pub fn variant_of(options: Vec<DataType>) -> (r: DataType)
        ensures
            r.shape() == Shape::Variant(options_from(shapes(options@))),
            wf_opts(shapes(options@)) ==> r.well_formed(),
    {
        proof {
            if wf_opts(shapes(options@)) {
                lemma_options_from_wf(shapes(options@));
            }
        }
        let ghost all = shapes(options@);
        let mut rest = options;
        let mut acc: Vec<DataType> = Vec::new();
        let ghost done: int = 0;
        proof {
            assert(all.take(0) =~= Seq::<Shape>::empty());
            assert(shapes(acc@) =~= Seq::<Shape>::empty());
            assert(shapes(rest@) =~= all.skip(0));
        }
        while rest.len() > 0
            invariant
                0 <= done <= all.len(),
                shapes(rest@) == all.skip(done),
                shapes(acc@) == options_from(all.take(done)),
            decreases rest.len(),
        {
            proof {
                lemma_shapes_drop_first(rest@);
                assert(all.skip(done)[0] == all[done]);
                assert(shapes(rest@)[0] == rest@[0].shape());
            }
            let x = rest.remove(0);
            proof {
                assert(all.take(done + 1).drop_last() =~= all.take(done));
                assert(all[done] == x.shape());
                assert(all.skip(done + 1) =~= all.skip(done).drop_first());
            }
            let one = vec![x];
            proof {
                assert(shapes(one@) =~= seq![x.shape()]);
            }
            acc = merge_options(acc, one);
            proof {
                done = done + 1;
            }
        }
        proof {
            assert(all.take(done) =~= all);
        }
        DataType::Variant(acc)
    }
}

impl Clone for DataType {
    /// A deep copy, of the same shape.
    fn clone(&self) -> (r: DataType)
        ensures
            r.shape() == self.shape(),
            r.well_formed() == self.well_formed(),
        decreases self,
    {
        match self {
            DataType::Null => DataType::Null,
            DataType::String => DataType::String,
            DataType::Int => DataType::Int,
            DataType::Float => DataType::Float,
            DataType::Bool => DataType::Bool,
            DataType::Object(fs) => {
                let mut r: Vec<(String, DataType)> = Vec::new();
                let mut i: usize = 0;
                while i < fs.len()
                    invariant
                        *self == DataType::Object(*fs),
                        i <= fs.len(),
                        field_shapes(r@) == field_shapes(fs@).take(i as int),
                    decreases fs.len() - i,
                {
                    proof {
                        broadcast use vstd::std_specs::vec::axiom_vec_index_decreases;

                        assert(decreases_to!(*self => (*self)->Object_0));
                        assert(decreases_to!(*fs => fs@));
                        assert(decreases_to!(fs@ => fs@[i as int]));
                        assert(decreases_to!(fs@[i as int] => fs@[i as int].1));
                    }
                    let k = fs[i].0.clone();
                    let t = fs[i].1.clone();
                    proof {
                        lemma_field_shapes_push(r@, (k, t));
                        assert(field_shapes(fs@).take(i + 1) =~= field_shapes(fs@).take(i as int).push(
                            (k@, t.shape()),
                        ));
                    }
                    r.push((k, t));
                    i += 1;
                }
                proof {
                    assert(field_shapes(fs@).take(i as int) =~= field_shapes(fs@));
                }
                DataType::Object(r)
            },
            DataType::Array(e) => DataType::Array(Box::new((**e).clone())),
            DataType::Variant(os) => {
                let mut r: Vec<DataType> = Vec::new();
                let mut i: usize = 0;
                while i < os.len()
                    invariant
                        *self == DataType::Variant(*os),
                        i <= os.len(),
                        shapes(r@) == shapes(os@).take(i as int),
                    decreases os.len() - i,
                {
                    proof {
                        broadcast use vstd::std_specs::vec::axiom_vec_index_decreases;

                        assert(decreases_to!(*self => (*self)->Variant_0));
                        assert(decreases_to!(*os => os@));
                        assert(decreases_to!(os@ => os@[i as int]));
                    }
                    let t = os[i].clone();
                    proof {
                        lemma_shapes_push(r@, t);
                        assert(shapes(os@).take(i + 1) =~= shapes(os@).take(i as int).push(t.shape()));
                    }
                    r.push(t);
                    i += 1;
                }
                proof {
                    assert(shapes(os@).take(i as int) =~= shapes(os@));
                }
                DataType::Variant(r)
            },
        }
    }
}

} // verus!
