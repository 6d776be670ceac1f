//! JSON values as the inference reads them, and the inference itself.
use vstd::prelude::*;
use vstd::arithmetic::div_mod::lemma_mod_breakdown;
use crate::data_type::{field_shapes, put_field_in, DataType};
use crate::shape::{
    fields_from, lemma_fields_from_wf, lemma_unify_all_wf, unify_all, wf, Shape,
};

verus! {

/// `10` to the power `k`.
pub open spec fn pow10(k: nat) -> nat
    decreases k,
{
    if k == 0 {
        1
    } else {
        10 * pow10((k - 1) as nat)
    }
}

proof fn lemma_pow10_positive(k: nat)
    ensures
        pow10(k) > 0,
    decreases k,
{
    if k > 0 {
        lemma_pow10_positive((k - 1) as nat);
    }
}

/// A JSON number in decimal form: its sign, and its magnitude
/// `mantissa * 10^exponent`.
#[derive(Debug, Clone, Copy)]
pub struct Number {
    pub positive: bool,
    pub mantissa: u64,
    pub exponent: i16,
}

impl Number {
    /// The number `mantissa * 10^exponent`, negated where `positive` is false.
    pub fn from_parts(positive: bool, mantissa: u64, exponent: i16) -> (r: Number)
        ensures
            r.positive == positive,
            r.mantissa == mantissa,
            r.exponent == exponent,
    {
        Number { positive, mantissa, exponent }
    }

    /// The number has no fractional part.
    pub open spec fn integral(self) -> bool {
        self.exponent >= 0 || (self.mantissa as nat) % pow10((-self.exponent) as nat) == 0
    }

    /// Whether the number has no fractional part.
    pub fn is_integral(&self) -> (r: bool)
        ensures
            r == self.integral(),
    {
        if self.exponent >= 0 {
            return true;
        }
        let k: u32 = (0i32 - self.exponent as i32) as u32;
        let mut m: u64 = self.mantissa;
        let mut j: u32 = 0;
        while j < k
            invariant
                self.exponent < 0,
                k as int == -self.exponent,
                j <= k,
                ((self.mantissa as nat) % pow10(k as nat) == 0) <==> ((m as nat) % pow10(
                    (k - j) as nat,
                ) == 0),
            decreases k - j,
        {
            let ghost p = pow10((k - j - 1) as nat);
            proof {
                lemma_pow10_positive((k - j - 1) as nat);
                lemma_mod_breakdown(m as int, 10, p as int);
                assert(pow10((k - j) as nat) == 10 * p);
            }
            if m % 10 != 0 {
                return false;
            }
            m = m / 10;
            j += 1;
        }
        true
    }
}

/// A JSON value.
#[derive(Debug)]
pub enum JsonValue {
    Null,
    String(String),
    Number(Number),
    Boolean(bool),
    /// The members of an object, in the order they were written.
    Object(Vec<(String, JsonValue)>),
    Array(Vec<JsonValue>),
}

/// The inferred shape of a JSON value.
pub open spec fn infer(v: JsonValue) -> Shape
    decreases v,
{
    match v {
        JsonValue::Null => Shape::Null,
        JsonValue::String(_) => Shape::Str,
        JsonValue::Number(n) => if n.integral() {
            Shape::Int
        } else {
            Shape::Float
        },
        JsonValue::Boolean(_) => Shape::Bool,
        JsonValue::Object(fs) => Shape::Object(fields_from(infer_members(fs@))),
        JsonValue::Array(es) => Shape::Array(Box::new(unify_all(infer_elements(es@)))),
    }
}

/// The names of the members of an object with their inferred shapes.
pub open spec fn infer_members(fs: Seq<(String, JsonValue)>) -> Seq<(Seq<char>, Shape)>
    decreases fs,
{
    Seq::new(
        fs.len(),
        |i: int|
            if 0 <= i < fs.len() {
                (fs[i].0@, infer(fs[i].1))
            } else {
                (Seq::empty(), Shape::Null)
            },
    )
}

/// The inferred shapes of the elements of an array.
pub open spec fn infer_elements(es: Seq<JsonValue>) -> Seq<Shape>
    decreases es,
{
    Seq::new(
        es.len(),
        |i: int|
            if 0 <= i < es.len() {
                infer(es[i])
            } else {
                Shape::Null
            },
    )
}

impl DataType {
    /// Creates a data type that can represent the given value.
    pub fn from_json_value(v: &JsonValue) -> (r: DataType)
        ensures
            r.shape() == infer(*v),
            r.well_formed(),
        decreases v,
    {
        proof {
            lemma_infer_wf(*v);
        }
        match v {
            JsonValue::Null => DataType::Null,
            JsonValue::String(_) => DataType::String,
            JsonValue::Number(n) => {
                if n.is_integral() {
                    DataType::Int
                } else {
                    DataType::Float
                }
            },
            JsonValue::Boolean(_) => DataType::Bool,
            JsonValue::Object(fs) => {
                let ghost all = infer_members(fs@);
                let mut acc: Vec<(String, DataType)> = Vec::new();
                let mut i: usize = 0;
                proof {
                    assert(all.take(0) =~= Seq::<(Seq<char>, Shape)>::empty());
                    assert(field_shapes(acc@) =~= Seq::<(Seq<char>, Shape)>::empty());
                }
                while i < fs.len()
                    invariant
                        *v == JsonValue::Object(*fs),
                        all == infer_members(fs@),
                        i <= fs.len(),
                        field_shapes(acc@) == fields_from(all.take(i as int)),
                    decreases fs.len() - i,
                {
                    proof {
                        broadcast use vstd::std_specs::vec::axiom_vec_index_decreases;

                        assert(decreases_to!(*v => (*v)->Object_0));
                        assert(decreases_to!(*fs => fs@));
                        assert(decreases_to!(fs@ => fs@[i as int]));
                        assert(decreases_to!(fs@[i as int] => fs@[i as int].1));
                    }
                    let k = fs[i].0.clone();
                    let t = DataType::from_json_value(&fs[i].1);
                    proof {
                        assert(all.take(i + 1).drop_last() =~= all.take(i as int));
                        assert(all[i as int] == (k@, t.shape()));
                    }
                    put_field_in(&mut acc, k, t);
                    i += 1;
                }
                proof {
                    assert(all.take(i as int) =~= all);
                }
                DataType::Object(acc)
            },
            JsonValue::Array(es) => {
                let ghost all = infer_elements(es@);
                let mut acc = DataType::Variant(Vec::new());
                let mut i: usize = 0;
                proof {
                    assert(all.take(0) =~= Seq::<Shape>::empty());
                    assert(acc.shape() == Shape::Variant(seq![])) by {
                        assert(crate::data_type::shapes(Seq::<DataType>::empty()) =~= Seq::<Shape>::empty());
                    }
                }
                while i < es.len()
                    invariant
                        *v == JsonValue::Array(*es),
                        all == infer_elements(es@),
                        i <= es.len(),
                        acc.shape() == unify_all(all.take(i as int)),
                    decreases es.len() - i,
                {
                    proof {
                        broadcast use vstd::std_specs::vec::axiom_vec_index_decreases;

                        assert(decreases_to!(*v => (*v)->Array_0));
                        assert(decreases_to!(*es => es@));
                        assert(decreases_to!(es@ => es@[i as int]));
                    }
                    let t = DataType::from_json_value(&es[i]);
                    proof {
                        assert(all.take(i + 1).drop_last() =~= all.take(i as int));
                        assert(all[i as int] == t.shape());
                    }
                    acc = acc.unify(t);
                    i += 1;
                }
                proof {
                    assert(all.take(i as int) =~= all);
                }
                DataType::Array(Box::new(acc))
            },
        }
    }
}

/// The inferred shape of every JSON value is well formed.
pub proof fn lemma_infer_wf(v: JsonValue)
    ensures
        wf(infer(v)),
    decreases v,
{
    broadcast use vstd::std_specs::vec::axiom_vec_index_decreases;

    match v {
        JsonValue::Object(fs) => {
            let all = infer_members(fs@);
            assert forall|i: int| 0 <= i < all.len() implies wf(#[trigger] all[i].1) by {
                assert(decreases_to!(v => v->Object_0));
                assert(decreases_to!(fs => fs@));
                assert(decreases_to!(fs@ => fs@[i]));
                assert(decreases_to!(fs@[i] => fs@[i].1));
                lemma_infer_wf(fs@[i].1);
            }
            lemma_fields_from_wf(all);
        },
        JsonValue::Array(es) => {
            let all = infer_elements(es@);
            assert forall|i: int| 0 <= i < all.len() implies wf(#[trigger] all[i]) by {
                assert(decreases_to!(v => v->Array_0));
                assert(decreases_to!(es => es@));
                assert(decreases_to!(es@ => es@[i]));
                lemma_infer_wf(es@[i]);
            }
            lemma_unify_all_wf(all);
        },
        _ => {},
    }
}

} // verus!
