//! Emission of declarations for an inferred type: every object becomes a
//! struct and every variant an enum, each with a fresh name.
use vstd::prelude::*;
use vstd::string::*;
use crate::data_type::{
    field_shapes, lemma_field_shapes_drop_first, lemma_shapes_drop_first, shapes, DataType,
};
use crate::shape::Shape;

verus! {

/// The character of a decimal digit.
pub open spec fn digit(d: nat) -> char {
    if d == 0 {
        '0'
    } else if d == 1 {
        '1'
    } else if d == 2 {
        '2'
    } else if d == 3 {
        '3'
    } else if d == 4 {
        '4'
    } else if d == 5 {
        '5'
    } else if d == 6 {
        '6'
    } else if d == 7 {
        '7'
    } else if d == 8 {
        '8'
    } else {
        '9'
    }
}

/// The decimal notation of `n`, without leading zeros.
pub open spec fn decimal(n: nat) -> Seq<char>
    decreases n,
{
    if n < 10 {
        seq![digit(n)]
    } else {
        decimal(n / 10) + seq![digit(n % 10)]
    }
}

/// The name of the declaration numbered `n`.
pub open spec fn decl_name(n: nat) -> Seq<char> {
    "Data"@ + decimal(n)
}

/// How many declarations a shape needs: one per object and per variant
/// in it.
pub open spec fn composites(s: Shape) -> nat
    decreases s,
{
    match s {
        Shape::Object(f) => 1 + fields_composites(f),
        Shape::Array(e) => composites(*e),
        Shape::Variant(o) => 1 + opts_composites(o),
        _ => 0,
    }
}

pub open spec fn fields_composites(f: Seq<(Seq<char>, Shape)>) -> nat
    decreases f,
{
    if f.len() == 0 {
        0
    } else {
        composites(f[0].1) + fields_composites(f.drop_first())
    }
}

pub open spec fn opts_composites(o: Seq<Shape>) -> nat
    decreases o,
{
    if o.len() == 0 {
        0
    } else {
        composites(o[0]) + opts_composites(o.drop_first())
    }
}

/// How a shape is referred to when the declarations it needs are numbered
/// from `n`.
pub open spec fn type_ref(s: Shape, n: nat) -> Seq<char>
    decreases s,
{
    match s {
        Shape::Null => "()"@,
        Shape::Str => "String"@,
        Shape::Int => "i32"@,
        Shape::Float => "f64"@,
        Shape::Bool => "bool"@,
        Shape::Array(e) => "Vec<"@ + type_ref(*e, n) + ">"@,
        _ => decl_name(n),
    }
}

/// The declarations of a shape, numbered from `n`, each with its number:
/// those of the members first, in order, then the shape's own.
pub open spec fn emitted(s: Shape, n: nat) -> Seq<(nat, Seq<char>)>
    decreases s,
{
    match s {
        Shape::Object(f) => fields_emitted(f, n + 1) + seq![
            (n, "struct "@ + decl_name(n) + " {\n"@ + member_lines(f, n + 1) + "}"@),
        ],
        Shape::Array(e) => emitted(*e, n),
        Shape::Variant(o) => opts_emitted(o, n + 1) + seq![
            (n, "enum "@ + decl_name(n) + " {\n"@ + option_lines(o, n + 1, 0) + "}"@),
        ],
        _ => seq![],
    }
}

pub open spec fn fields_emitted(f: Seq<(Seq<char>, Shape)>, n: nat) -> Seq<(nat, Seq<char>)>
    decreases f,
{
    if f.len() == 0 {
        seq![]
    } else {
        emitted(f[0].1, n) + fields_emitted(f.drop_first(), n + composites(f[0].1))
    }
}

pub open spec fn opts_emitted(o: Seq<Shape>, n: nat) -> Seq<(nat, Seq<char>)>
    decreases o,
{
    if o.len() == 0 {
        seq![]
    } else {
        emitted(o[0], n) + opts_emitted(o.drop_first(), n + composites(o[0]))
    }
}

/// The member lines of a struct whose members' declarations are numbered
/// from `n`.
pub open spec fn member_lines(f: Seq<(Seq<char>, Shape)>, n: nat) -> Seq<char>
    decreases f.len(),
{
    if f.len() == 0 {
        seq![]
    } else {
        "    pub "@ + f[0].0 + ": "@ + type_ref(f[0].1, n) + ",\n"@ + member_lines(
            f.drop_first(),
            n + composites(f[0].1),
        )
    }
}

/// The option lines of an enum, the first labelled `Option{i}`.
pub open spec fn option_lines(o: Seq<Shape>, n: nat, i: nat) -> Seq<char>
    decreases o.len(),
{
    if o.len() == 0 {
        seq![]
    } else {
        "    Option"@ + decimal(i) + "("@ + type_ref(o[0], n) + "),\n"@ + option_lines(
            o.drop_first(),
            n + composites(o[0]),
            i + 1,
        )
    }
}

/// The texts of a sequence of strings.
pub open spec fn texts(v: Seq<String>) -> Seq<Seq<char>> {
    v.map_values(|s: String| s@)
}

/// The texts of numbered declarations.
pub open spec fn decl_texts(e: Seq<(nat, Seq<char>)>) -> Seq<Seq<char>> {
    e.map_values(|p: (nat, Seq<char>)| p.1)
}

proof fn lemma_texts_push(v: Seq<String>, x: String)
    ensures
        texts(v.push(x)) == texts(v).push(x@),
{
    assert(texts(v.push(x)) =~= texts(v).push(x@));
}

proof fn lemma_decl_texts_add(a: Seq<(nat, Seq<char>)>, b: Seq<(nat, Seq<char>)>)
    ensures
        decl_texts(a + b) == decl_texts(a) + decl_texts(b),
{
    assert(decl_texts(a + b) =~= decl_texts(a) + decl_texts(b));
}

/// Appends the decimal notation of `n`.
fn push_decimal(s: &mut String, n: usize)
    ensures
        final(s)@ == old(s)@ + decimal(n as nat),
    decreases n,
{
    if n >= 10 {
        push_decimal(s, n / 10);
    }
    let d = n % 10;
    proof {
        reveal_strlit("0");
        reveal_strlit("1");
        reveal_strlit("2");
        reveal_strlit("3");
        reveal_strlit("4");
        reveal_strlit("5");
        reveal_strlit("6");
        reveal_strlit("7");
        reveal_strlit("8");
        reveal_strlit("9");
    }
    if d == 0 {
        s.append("0");
    } else if d == 1 {
        s.append("1");
    } else if d == 2 {
        s.append("2");
    } else if d == 3 {
        s.append("3");
    } else if d == 4 {
        s.append("4");
    } else if d == 5 {
        s.append("5");
    } else if d == 6 {
        s.append("6");
    } else if d == 7 {
        s.append("7");
    } else if d == 8 {
        s.append("8");
    } else {
        s.append("9");
    }
}

/// The name of the declaration numbered `n`.
fn name_of(n: usize) -> (r: String)
    ensures
        r@ == decl_name(n as nat),
{
    proof {
        reveal_strlit("Data");
    }
    let mut r = String::from_str("Data");
    push_decimal(&mut r, n);
    r
}

/// Declarations collected while a type is declared, and the number that
/// the next one gets.
pub struct Decls {
    pub next_index: usize,
    pub decls: Vec<String>,
}

impl Decls {
    /// No declarations yet; the first one is numbered 0.
    pub fn new() -> (r: Decls)
        ensures
            r.next_index == 0,
            r.decls@.len() == 0,
    {
        Decls { next_index: 0, decls: Vec::new() }
    }
}

impl DataType {
    /// Emits the declarations this type needs into `decls`, numbering them
    /// on from `decls.next_index`, and returns how the type is referred to.
    ///
    /// Each object becomes a struct and each variant an enum with one
    /// option per member; a struct or enum is pushed after the
    /// declarations of its members, but takes its number before them.
    pub fn declare(self, decls: &mut Decls) -> (r: String)
        requires
            old(decls).next_index + composites(self.shape()) <= usize::MAX,
        ensures
            final(decls).next_index == old(decls).next_index + composites(self.shape()),
            texts(final(decls).decls@) == texts(old(decls).decls@) + decl_texts(
                emitted(self.shape(), old(decls).next_index as nat),
            ),
            r@ == type_ref(self.shape(), old(decls).next_index as nat),
        decreases self, 1nat,
    {
        let ghost n0 = decls.next_index as nat;
        let ghost d0 = texts(decls.decls@);
        match self {
            DataType::Null => {
                proof {
                    reveal_strlit("()");
                    assert(decl_texts(seq![]) =~= Seq::<Seq<char>>::empty());
                    assert(texts(decls.decls@) =~= d0 + Seq::<Seq<char>>::empty());
                }
                String::from_str("()")
            },
            DataType::String => {
                proof {
                    reveal_strlit("String");
                    assert(decl_texts(seq![]) =~= Seq::<Seq<char>>::empty());
                    assert(texts(decls.decls@) =~= d0 + Seq::<Seq<char>>::empty());
                }
                String::from_str("String")
            },
            DataType::Int => {
                proof {
                    reveal_strlit("i32");
                    assert(decl_texts(seq![]) =~= Seq::<Seq<char>>::empty());
                    assert(texts(decls.decls@) =~= d0 + Seq::<Seq<char>>::empty());
                }
                String::from_str("i32")
            },
            DataType::Float => {
                proof {
                    reveal_strlit("f64");
                    assert(decl_texts(seq![]) =~= Seq::<Seq<char>>::empty());
                    assert(texts(decls.decls@) =~= d0 + Seq::<Seq<char>>::empty());
                }
                String::from_str("f64")
            },
            DataType::Bool => {
                proof {
                    reveal_strlit("bool");
                    assert(decl_texts(seq![]) =~= Seq::<Seq<char>>::empty());
                    assert(texts(decls.decls@) =~= d0 + Seq::<Seq<char>>::empty());
                }
                String::from_str("bool")
            },
            DataType::Array(e) => {
                let inner = (*e).declare(decls);
                proof {
                    reveal_strlit("Vec<");
                    reveal_strlit(">");
                }
                let mut r = String::from_str("Vec<");
                r.append(inner.as_str());
                r.append(">");
                r
            },
            DataType::Object(members) => declare_object(members, decls),
            DataType::Variant(options) => declare_variant(options, decls),
        }
    }
}

/// Declares an object's struct, after the declarations of its members.
fn declare_object(members: Vec<(String, DataType)>, decls: &mut Decls) -> (r: String)
    requires
        old(decls).next_index + composites(DataType::Object(members).shape()) <= usize::MAX,
    ensures
        final(decls).next_index == old(decls).next_index + composites(
            DataType::Object(members).shape(),
        ),
        texts(final(decls).decls@) == texts(old(decls).decls@) + decl_texts(
            emitted(DataType::Object(members).shape(), old(decls).next_index as nat),
        ),
        r@ == type_ref(DataType::Object(members).shape(), old(decls).next_index as nat),
    decreases DataType::Object(members), 0nat,
{
    let ghost n0 = old(decls).next_index as nat;
    let ghost d0 = texts(old(decls).decls@);
    let ghost fs0 = field_shapes(members@);
    let ghost whole = DataType::Object(members);
    let n = decls.next_index;
    decls.next_index = n + 1;
    proof {
        reveal_strlit("struct ");
        reveal_strlit(" {\n");
        reveal_strlit("    pub ");
        reveal_strlit(": ");
        reveal_strlit(",\n");
        reveal_strlit("}");
    }
    let mut text = String::from_str("struct ");
    let name = name_of(n);
    text.append(name.as_str());
    text.append(" {\n");
    let mut rest = members;
    let ghost head = text@;
    let ghost done: int = 0;
    proof {
        assert(rest@.subrange(done, rest@.len() as int) =~= rest@);
    }
    while rest.len() > 0
        invariant
            whole == DataType::Object(members),
            fs0 == field_shapes(members@),
            head == "struct "@ + decl_name(n0) + " {\n"@,
            n == n0,
            name@ == decl_name(n0),
            0 <= done <= members@.len(),
            rest@ == members@.subrange(done, members@.len() as int),
            decls.next_index + fields_composites(field_shapes(rest@)) == n0 + 1 + fields_composites(fs0),
            decls.next_index + fields_composites(field_shapes(rest@)) <= usize::MAX,
            text@ + member_lines(field_shapes(rest@), decls.next_index as nat) == head
                + member_lines(fs0, n0 + 1),
            texts(decls.decls@) + decl_texts(fields_emitted(field_shapes(rest@), decls.next_index as nat))
                == d0 + decl_texts(fields_emitted(fs0, n0 + 1)),
        decreases rest.len(),
    {
        let ghost rs = field_shapes(rest@);
        let ghost k = decls.next_index as nat;
        let ghost tx = text@;
        let ghost dd = texts(decls.decls@);
        proof {
            lemma_field_shapes_drop_first(rest@);
            assert(rest@[0] == members@[done]);
            broadcast use vstd::std_specs::vec::axiom_vec_index_decreases;

            assert(decreases_to!(members => members@[done]));
        }
        let (field, t) = rest.remove(0);
        proof {
            done = done + 1;
            assert(rest@ =~= members@.subrange(done, members@.len() as int));
            assert(fields_composites(rs) == composites(t.shape()) + fields_composites(field_shapes(rest@)));
            assert(t == members@[done - 1].1);
            assert(decreases_to!(whole => whole->Object_0));
            assert(decreases_to!(members => members@));
            assert(decreases_to!(members@ => members@[done - 1]));
            assert(decreases_to!(members@[done - 1] => members@[done - 1].1));
            assert(decreases_to!(DataType::Object(members) => t));
        }
        let tr = t.declare(decls);
        text.append("    pub ");
        text.append(field.as_str());
        text.append(": ");
        text.append(tr.as_str());
        text.append(",\n");
        proof {
            assert(member_lines(rs, k) == "    pub "@ + field@ + ": "@ + type_ref(t.shape(), k) + ",\n"@
                + member_lines(field_shapes(rest@), k + composites(t.shape())));
            assert(text@ =~= tx + "    pub "@ + field@ + ": "@ + type_ref(t.shape(), k) + ",\n"@);
            assert(text@ + member_lines(field_shapes(rest@), decls.next_index as nat) =~= tx
                + member_lines(rs, k));
            lemma_decl_texts_add(emitted(t.shape(), k), fields_emitted(field_shapes(rest@), decls.next_index as nat));
            assert(fields_emitted(rs, k) == emitted(t.shape(), k) + fields_emitted(field_shapes(rest@), decls.next_index as nat));
            assert(texts(decls.decls@) + decl_texts(fields_emitted(field_shapes(rest@), decls.next_index as nat))
                =~= dd + decl_texts(fields_emitted(rs, k)));
        }
    }
    text.append("}");
    let ghost body = text@;
    proof {
        assert(field_shapes(rest@) =~= Seq::<(Seq<char>, Shape)>::empty());
        lemma_texts_push(decls.decls@, text);
    }
    decls.decls.push(text);
    proof {
        let item = (n0, "struct "@ + decl_name(n0) + " {\n"@ + member_lines(fs0, n0 + 1) + "}"@);
        assert(body == item.1);
        assert(emitted(whole.shape(), n0) == fields_emitted(fs0, n0 + 1) + seq![item]);
        lemma_decl_texts_add(fields_emitted(fs0, n0 + 1), seq![item]);
        assert(decl_texts(seq![item]) =~= seq![item.1]);
        assert(texts(decls.decls@) =~= d0 + decl_texts(emitted(whole.shape(), n0)));
    }
    name
}

/// Declares a variant's enum, after the declarations of its options.
fn declare_variant(options: Vec<DataType>, decls: &mut Decls) -> (r: String)
    requires
        old(decls).next_index + composites(DataType::Variant(options).shape()) <= usize::MAX,
    ensures
        final(decls).next_index == old(decls).next_index + composites(
            DataType::Variant(options).shape(),
        ),
        texts(final(decls).decls@) == texts(old(decls).decls@) + decl_texts(
            emitted(DataType::Variant(options).shape(), old(decls).next_index as nat),
        ),
        r@ == type_ref(DataType::Variant(options).shape(), old(decls).next_index as nat),
    decreases DataType::Variant(options), 0nat,
{
    let ghost n0 = old(decls).next_index as nat;
    let ghost d0 = texts(old(decls).decls@);
    let ghost os0 = shapes(options@);
    let ghost whole = DataType::Variant(options);
    let n = decls.next_index;
    decls.next_index = n + 1;
    proof {
        reveal_strlit("enum ");
        reveal_strlit(" {\n");
        reveal_strlit("    Option");
        reveal_strlit("(");
        reveal_strlit("),\n");
        reveal_strlit("}");
    }
    let mut text = String::from_str("enum ");
    let name = name_of(n);
    text.append(name.as_str());
    text.append(" {\n");
    let total = options.len();
    let mut rest = options;
    let ghost head = text@;
    let mut idx: usize = 0;
    proof {
        assert(rest@.subrange(idx as int, rest@.len() as int) =~= rest@);
    }
    while rest.len() > 0
        invariant
            whole == DataType::Variant(options),
            os0 == shapes(options@),
            head == "enum "@ + decl_name(n0) + " {\n"@,
            n == n0,
            name@ == decl_name(n0),
            total == options@.len(),
            0 <= idx <= options@.len(),
            rest@ == options@.subrange(idx as int, options@.len() as int),
            decls.next_index + opts_composites(shapes(rest@)) == n0 + 1 + opts_composites(os0),
            decls.next_index + opts_composites(shapes(rest@)) <= usize::MAX,
            text@ + option_lines(shapes(rest@), decls.next_index as nat, idx as nat) == head
                + option_lines(os0, n0 + 1, 0),
            texts(decls.decls@) + decl_texts(opts_emitted(shapes(rest@), decls.next_index as nat))
                == d0 + decl_texts(opts_emitted(os0, n0 + 1)),
        decreases rest.len(),
    {
        let ghost rs = shapes(rest@);
        let ghost k = decls.next_index as nat;
        let ghost tx = text@;
        let ghost dd = texts(decls.decls@);
        proof {
            lemma_shapes_drop_first(rest@);
            assert(rest@[0] == options@[idx as int]);
            broadcast use vstd::std_specs::vec::axiom_vec_index_decreases;

            assert(decreases_to!(options => options@[idx as int]));
        }
        let t = rest.remove(0);
        proof {
            assert(rest@ =~= options@.subrange(idx + 1, options@.len() as int));
            assert(opts_composites(rs) == composites(t.shape()) + opts_composites(shapes(rest@)));
            assert(t == options@[idx as int]);
            assert(decreases_to!(whole => whole->Variant_0));
            assert(decreases_to!(options => options@));
            assert(decreases_to!(options@ => options@[idx as int]));
            assert(decreases_to!(DataType::Variant(options) => t));
            assert(idx < options@.len());
        }
        let tr = t.declare(decls);
        text.append("    Option");
        push_decimal(&mut text, idx);
        text.append("(");
        text.append(tr.as_str());
        text.append("),\n");
        proof {
            assert(option_lines(rs, k, idx as nat) == "    Option"@ + decimal(idx as nat) + "("@
                + type_ref(t.shape(), k) + "),\n"@ + option_lines(
                shapes(rest@),
                k + composites(t.shape()),
                idx as nat + 1,
            ));
            assert(text@ =~= tx + "    Option"@ + decimal(idx as nat) + "("@ + type_ref(t.shape(), k)
                + "),\n"@);
            assert(text@ + option_lines(shapes(rest@), decls.next_index as nat, idx as nat + 1)
                =~= tx + option_lines(rs, k, idx as nat));
            lemma_decl_texts_add(emitted(t.shape(), k), opts_emitted(shapes(rest@), decls.next_index as nat));
            assert(opts_emitted(rs, k) == emitted(t.shape(), k) + opts_emitted(shapes(rest@), decls.next_index as nat));
            assert(texts(decls.decls@) + decl_texts(opts_emitted(shapes(rest@), decls.next_index as nat))
                =~= dd + decl_texts(opts_emitted(rs, k)));
        }
        idx = idx + 1;
    }
    text.append("}");
    let ghost body = text@;
    proof {
        assert(shapes(rest@) =~= Seq::<Shape>::empty());
        lemma_texts_push(decls.decls@, text);
    }
    decls.decls.push(text);
    proof {
        let item = (n0, "enum "@ + decl_name(n0) + " {\n"@ + option_lines(os0, n0 + 1, 0) + "}"@);
        assert(body == item.1);
        assert(emitted(whole.shape(), n0) == opts_emitted(os0, n0 + 1) + seq![item]);
        lemma_decl_texts_add(opts_emitted(os0, n0 + 1), seq![item]);
        assert(decl_texts(seq![item]) =~= seq![item.1]);
        assert(texts(decls.decls@) =~= d0 + decl_texts(emitted(whole.shape(), n0)));
    }
    name
}

/// Whether `text` opens the struct or enum declaration named by `k`.
pub open spec fn opens_decl(text: Seq<char>, k: nat) -> bool {
    ("struct "@ + decl_name(k) + " {\n"@).is_prefix_of(text) || ("enum "@ + decl_name(k)
        + " {\n"@).is_prefix_of(text)
}

/// `e` holds `c` declarations, numbered with distinct numbers from
/// `n` up to `n + c`, each opening with its own name.
pub open spec fn numbered(e: Seq<(nat, Seq<char>)>, n: nat, c: nat) -> bool {
    &&& e.len() == c
    &&& forall|i: int| 0 <= i < e.len() ==> n <= #[trigger] e[i].0 < n + c
    &&& forall|i: int, j: int| 0 <= i < j < e.len() ==> #[trigger] e[i].0 != #[trigger] e[j].0
    &&& forall|i: int| 0 <= i < e.len() ==> opens_decl(#[trigger] e[i].1, e[i].0)
}

proof fn lemma_numbered_add(a: Seq<(nat, Seq<char>)>, b: Seq<(nat, Seq<char>)>, n: nat, c1: nat, c2: nat)
    requires
        numbered(a, n, c1),
        numbered(b, n + c1, c2),
    ensures
        numbered(a + b, n, c1 + c2),
{
    let e = a + b;
    assert forall|i: int| 0 <= i < e.len() implies n <= #[trigger] e[i].0 < n + c1 + c2 by {
        if i >= a.len() {
            assert(e[i] == b[i - a.len()]);
        }
    }
    assert forall|i: int, j: int| 0 <= i < j < e.len() implies #[trigger] e[i].0
        != #[trigger] e[j].0 by {
        if j < a.len() {
        } else if i >= a.len() {
            assert(e[i] == b[i - a.len()]);
            assert(e[j] == b[j - a.len()]);
        } else {
            assert(e[j] == b[j - a.len()]);
        }
    }
    assert forall|i: int| 0 <= i < e.len() implies opens_decl(#[trigger] e[i].1, e[i].0) by {
        if i >= a.len() {
            assert(e[i] == b[i - a.len()]);
        }
    }
}

pub proof fn lemma_emitted_numbered(s: Shape, n: nat)
    ensures
        numbered(emitted(s, n), n, composites(s)),
    decreases s,
{
    match s {
        Shape::Object(f) => {
            lemma_fields_emitted_numbered(f, n + 1);
            let text = "struct "@ + decl_name(n) + " {\n"@ + member_lines(f, n + 1) + "}"@;
            assert(("struct "@ + decl_name(n) + " {\n"@).is_prefix_of(text)) by {
                let p = "struct "@ + decl_name(n) + " {\n"@;
                assert(text =~= p + (member_lines(f, n + 1) + "}"@));
                assert(text.subrange(0, p.len() as int) =~= p);
            }
            assert(numbered(seq![(n, text)], n, 1));
            lemma_numbered_add(seq![(n, text)], fields_emitted(f, n + 1), n, 1, fields_composites(f));
            let a = fields_emitted(f, n + 1);
            let e = emitted(s, n);
            assert(e == a + seq![(n, text)]);
            assert forall|i: int| 0 <= i < e.len() implies n <= #[trigger] e[i].0 < n + composites(s) by {
                if i < a.len() {
                    assert(e[i] == a[i]);
                }
            }
            assert forall|i: int, j: int| 0 <= i < j < e.len() implies #[trigger] e[i].0
                != #[trigger] e[j].0 by {
                assert(e[i] == a[i]);
                if j < a.len() {
                    assert(e[j] == a[j]);
                }
            }
            assert forall|i: int| 0 <= i < e.len() implies opens_decl(#[trigger] e[i].1, e[i].0) by {
                if i < a.len() {
                    assert(e[i] == a[i]);
                }
            }
        },
        Shape::Array(x) => lemma_emitted_numbered(*x, n),
        Shape::Variant(o) => {
            lemma_opts_emitted_numbered(o, n + 1);
            let text = "enum "@ + decl_name(n) + " {\n"@ + option_lines(o, n + 1, 0) + "}"@;
            assert(("enum "@ + decl_name(n) + " {\n"@).is_prefix_of(text)) by {
                let p = "enum "@ + decl_name(n) + " {\n"@;
                assert(text =~= p + (option_lines(o, n + 1, 0) + "}"@));
                assert(text.subrange(0, p.len() as int) =~= p);
            }
            let a = opts_emitted(o, n + 1);
            let e = emitted(s, n);
            assert(e == a + seq![(n, text)]);
            assert forall|i: int| 0 <= i < e.len() implies n <= #[trigger] e[i].0 < n + composites(s) by {
                if i < a.len() {
                    assert(e[i] == a[i]);
                }
            }
            assert forall|i: int, j: int| 0 <= i < j < e.len() implies #[trigger] e[i].0
                != #[trigger] e[j].0 by {
                assert(e[i] == a[i]);
                if j < a.len() {
                    assert(e[j] == a[j]);
                }
            }
            assert forall|i: int| 0 <= i < e.len() implies opens_decl(#[trigger] e[i].1, e[i].0) by {
                if i < a.len() {
                    assert(e[i] == a[i]);
                }
            }
        },
        _ => {},
    }
}

proof fn lemma_fields_emitted_numbered(f: Seq<(Seq<char>, Shape)>, n: nat)
    ensures
        numbered(fields_emitted(f, n), n, fields_composites(f)),
    decreases f,
{
    if f.len() > 0 {
        lemma_emitted_numbered(f[0].1, n);
        lemma_fields_emitted_numbered(f.drop_first(), n + composites(f[0].1));
        lemma_numbered_add(
            emitted(f[0].1, n),
            fields_emitted(f.drop_first(), n + composites(f[0].1)),
            n,
            composites(f[0].1),
            fields_composites(f.drop_first()),
        );
    }
}

proof fn lemma_opts_emitted_numbered(o: Seq<Shape>, n: nat)
    ensures
        numbered(opts_emitted(o, n), n, opts_composites(o)),
    decreases o,
{
    if o.len() > 0 {
        lemma_emitted_numbered(o[0], n);
        lemma_opts_emitted_numbered(o.drop_first(), n + composites(o[0]));
        lemma_numbered_add(
            emitted(o[0], n),
            opts_emitted(o.drop_first(), n + composites(o[0])),
            n,
            composites(o[0]),
            opts_composites(o.drop_first()),
        );
    }
}

proof fn lemma_decimal_nonempty(n: nat)
    ensures
        decimal(n).len() >= 1,
    decreases n,
{
    if n >= 10 {
        lemma_decimal_nonempty(n / 10);
    }
}

/// Distinct numbers have distinct decimal notations, and so distinct
/// declaration names.
pub proof fn lemma_decl_name_injective(a: nat, b: nat)
    ensures
        decl_name(a) == decl_name(b) ==> a == b,
    decreases a,
{
    if decl_name(a) == decl_name(b) {
        let p = "Data"@;
        assert(decimal(a) =~= decl_name(a).subrange(p.len() as int, decl_name(a).len() as int));
        assert(decimal(b) =~= decl_name(b).subrange(p.len() as int, decl_name(b).len() as int));
        lemma_decimal_injective(a, b);
    }
}

proof fn lemma_decimal_injective(a: nat, b: nat)
    requires
        decimal(a) == decimal(b),
    ensures
        a == b,
    decreases a,
{
    if a >= 10 {
        lemma_decimal_nonempty(a / 10);
    }
    if b >= 10 {
        lemma_decimal_nonempty(b / 10);
    }
    if a >= 10 && b >= 10 {
        let da = decimal(a / 10);
        let db = decimal(b / 10);
        assert(decimal(a)[decimal(a).len() - 1] == digit(a % 10));
        assert(decimal(b)[decimal(b).len() - 1] == digit(b % 10));
        assert(da =~= decimal(a).subrange(0, decimal(a).len() - 1));
        assert(db =~= decimal(b).subrange(0, decimal(b).len() - 1));
        lemma_decimal_injective(a / 10, b / 10);
    } else if a < 10 && b < 10 {
        assert(decimal(a)[0] == digit(a));
        assert(decimal(b)[0] == digit(b));
    } else if a < 10 {
        assert(decimal(a).len() == 1);
        assert(decimal(b).len() == decimal(b / 10).len() + 1);
    } else {
        assert(decimal(b).len() == 1);
        assert(decimal(a).len() == decimal(a / 10).len() + 1);
    }
}

} // verus!
