//! The type language of Rhai analysis: executable `TypeRef` values and the
//! mathematical model `Ty` that contracts speak of.

use vstd::prelude::*;

verus! {

/// The signature of a callable: parameter types and a return type.
#[derive(Debug)]
pub struct FunctionTypeRef {
    pub params: Vec<TypeRef>,
    pub ret: Box<TypeRef>,
}

/// One field of an object type.
#[derive(Debug)]
pub struct ObjectField {
    pub name: String,
    pub ty: TypeRef,
}

/// A type as the analyzer writes it. Object fields are kept sorted by name,
/// as a `BTreeMap<String, TypeRef>` keeps them.
#[derive(Debug)]
pub enum TypeRef {
    Unknown,
    Any,
    Dynamic,
    Never,
    Unit,
    Bool,
    Int,
    Float,
    Decimal,
    String,
    Char,
    Blob,
    Timestamp,
    FnPtr,
    Range,
    RangeInclusive,
    Named(String),
    Applied { name: String, args: Vec<TypeRef> },
    Array(Box<TypeRef>),
    Dict(Box<TypeRef>, Box<TypeRef>),
    Object(Vec<ObjectField>),
    Nullable(Box<TypeRef>),
    Union(Vec<TypeRef>),
    Ambiguous(Vec<TypeRef>),
    Function(FunctionTypeRef),
}

/// The mathematical model of a type: names become character sequences and
/// vectors become sequences.
pub enum Ty {
    Unknown,
    Any,
    Dynamic,
    Never,
    Unit,
    Bool,
    Int,
    Float,
    Decimal,
    Str,
    Char,
    Blob,
    Timestamp,
    FnPtr,
    Range,
    RangeInclusive,
    Named(Seq<char>),
    Applied(Seq<char>, Seq<Ty>),
    Array(Box<Ty>),
    Dict(Box<Ty>, Box<Ty>),
    Object(Seq<(Seq<char>, Ty)>),
    Nullable(Box<Ty>),
    Union(Seq<Ty>),
    Ambiguous(Seq<Ty>),
    Function(Seq<Ty>, Box<Ty>),
}

impl TypeRef {
    pub open spec fn model(self) -> Ty
        decreases self,
    {
        match self {
            TypeRef::Unknown => Ty::Unknown,
            TypeRef::Any => Ty::Any,
            TypeRef::Dynamic => Ty::Dynamic,
            TypeRef::Never => Ty::Never,
            TypeRef::Unit => Ty::Unit,
            TypeRef::Bool => Ty::Bool,
            TypeRef::Int => Ty::Int,
            TypeRef::Float => Ty::Float,
            TypeRef::Decimal => Ty::Decimal,
            TypeRef::String => Ty::Str,
            TypeRef::Char => Ty::Char,
            TypeRef::Blob => Ty::Blob,
            TypeRef::Timestamp => Ty::Timestamp,
            TypeRef::FnPtr => Ty::FnPtr,
            TypeRef::Range => Ty::Range,
            TypeRef::RangeInclusive => Ty::RangeInclusive,
            TypeRef::Named(n) => Ty::Named(n@),
            TypeRef::Applied { name, args } => Ty::Applied(
                name@,
                Seq::new(
                    args.len() as nat,
                    |i: int|
                        if 0 <= i < args.len() {
                            args@[i].model()
                        } else {
                            Ty::Unknown
                        },
                ),
            ),
            TypeRef::Array(inner) => Ty::Array(Box::new(inner.model())),
            TypeRef::Dict(k, v) => Ty::Dict(Box::new(k.model()), Box::new(v.model())),
            TypeRef::Object(fs) => Ty::Object(
                Seq::new(
                    fs.len() as nat,
                    |i: int|
                        if 0 <= i < fs.len() {
                            (fs@[i].name@, fs@[i].ty.model())
                        } else {
                            (Seq::empty(), Ty::Unknown)
                        },
                ),
            ),
            TypeRef::Nullable(inner) => Ty::Nullable(Box::new(inner.model())),
            TypeRef::Union(xs) => Ty::Union(
                Seq::new(
                    xs.len() as nat,
                    |i: int|
                        if 0 <= i < xs.len() {
                            xs@[i].model()
                        } else {
                            Ty::Unknown
                        },
                ),
            ),
            TypeRef::Ambiguous(xs) => Ty::Ambiguous(
                Seq::new(
                    xs.len() as nat,
                    |i: int|
                        if 0 <= i < xs.len() {
                            xs@[i].model()
                        } else {
                            Ty::Unknown
                        },
                ),
            ),
            TypeRef::Function(f) => Ty::Function(
                Seq::new(
                    f.params.len() as nat,
                    |i: int|
                        if 0 <= i < f.params.len() {
                            f.params@[i].model()
                        } else {
                            Ty::Unknown
                        },
                ),
                Box::new(f.ret.model()),
            ),
        }
    }
}

impl View for TypeRef {
    type V = Ty;

    open spec fn view(&self) -> Ty {
        self.model()
    }
}

/// The models of a sequence of types.
pub open spec fn views(xs: Seq<TypeRef>) -> Seq<Ty> {
    Seq::new(xs.len(), |i: int| xs[i]@)
}

/// The models of a sequence of object fields.
pub open spec fn field_views(fs: Seq<ObjectField>) -> Seq<(Seq<char>, Ty)> {
    Seq::new(fs.len(), |i: int| (fs[i].name@, fs[i].ty@))
}

impl FunctionTypeRef {
    /// The model of a signature: parameter models and the return model.
    pub open spec fn sig(self) -> (Seq<Ty>, Ty) {
        (views(self.params@), self.ret@)
    }
}

pub proof fn lemma_model_unfold(t: TypeRef)
    ensures
        (t matches TypeRef::Applied { name, args } ==> t@ == Ty::Applied(name@, views(args@))),
        (t matches TypeRef::Object(fs) ==> t@ == Ty::Object(field_views(fs@))),
        (t matches TypeRef::Union(xs) ==> t@ == Ty::Union(views(xs@))),
        (t matches TypeRef::Ambiguous(xs) ==> t@ == Ty::Ambiguous(views(xs@))),
        (t matches TypeRef::Function(f) ==> t@ == Ty::Function(views(f.params@), Box::new(
            f.ret@,
        ))),
{
    match t {
        TypeRef::Applied { name, args } => {
            assert(t@->Applied_1 =~= views(args@));
        },
        TypeRef::Object(fs) => {
            assert(t@->Object_0 =~= field_views(fs@));
        },
        TypeRef::Union(xs) => {
            assert(t@->Union_0 =~= views(xs@));
        },
        TypeRef::Ambiguous(xs) => {
            assert(t@->Ambiguous_0 =~= views(xs@));
        },
        TypeRef::Function(f) => {
            assert(t@->Function_0 =~= views(f.params@));
        },
        _ => {},
    }
}

} // verus!

verus! {

/// Whether two type lists are equal as models.
pub fn types_eq(xs: &Vec<TypeRef>, ys: &Vec<TypeRef>) -> (r: bool)
    ensures
        r == (views(xs@) == views(ys@)),
    decreases xs,
{
    if xs.len() != ys.len() {
        assert(views(xs@).len() != views(ys@).len());
        return false;
    }
    let mut i: usize = 0;
    while i < xs.len()
        invariant
            0 <= i <= xs.len(),
            xs.len() == ys.len(),
            forall|j: int| 0 <= j < i ==> xs@[j]@ == ys@[j]@,
        decreases xs.len() - i,
    {
        proof {
            assert(decreases_to!(xs => xs@[i as int]));
        }
        if !type_eq(&xs[i], &ys[i]) {
            assert(views(xs@)[i as int] != views(ys@)[i as int]);
            return false;
        }
        i += 1;
    }
    assert(views(xs@) =~= views(ys@));
    true
}

/// Whether two field lists are equal as models.
pub fn fields_eq(xs: &Vec<ObjectField>, ys: &Vec<ObjectField>) -> (r: bool)
    ensures
        r == (field_views(xs@) == field_views(ys@)),
    decreases xs,
{
    if xs.len() != ys.len() {
        assert(field_views(xs@).len() != field_views(ys@).len());
        return false;
    }
    let mut i: usize = 0;
    while i < xs.len()
        invariant
            0 <= i <= xs.len(),
            xs.len() == ys.len(),
            forall|j: int| 0 <= j < i ==> xs@[j].name@ == ys@[j].name@ && xs@[j].ty@ == ys@[j].ty@,
        decreases xs.len() - i,
    {
        proof {
            assert(decreases_to!(xs => xs@));
            assert(decreases_to!(xs@ => xs@[i as int]));
            assert(decreases_to!(xs@[i as int] => xs@[i as int].ty));
        }
        if !(xs[i].name == ys[i].name) || !type_eq(&xs[i].ty, &ys[i].ty) {
            assert(field_views(xs@)[i as int] != field_views(ys@)[i as int]);
            return false;
        }
        i += 1;
    }
    assert(field_views(xs@) =~= field_views(ys@));
    true
}

/// Whether two types are equal as models.
pub fn type_eq(a: &TypeRef, b: &TypeRef) -> (r: bool)
    ensures
        r == (a@ == b@),
    decreases a,
{
    proof {
        lemma_model_unfold(*a);
        lemma_model_unfold(*b);
    }
    match (a, b) {
        (TypeRef::Unknown, TypeRef::Unknown) => true,
        (TypeRef::Any, TypeRef::Any) => true,
        (TypeRef::Dynamic, TypeRef::Dynamic) => true,
        (TypeRef::Never, TypeRef::Never) => true,
        (TypeRef::Unit, TypeRef::Unit) => true,
        (TypeRef::Bool, TypeRef::Bool) => true,
        (TypeRef::Int, TypeRef::Int) => true,
        (TypeRef::Float, TypeRef::Float) => true,
        (TypeRef::Decimal, TypeRef::Decimal) => true,
        (TypeRef::String, TypeRef::String) => true,
        (TypeRef::Char, TypeRef::Char) => true,
        (TypeRef::Blob, TypeRef::Blob) => true,
        (TypeRef::Timestamp, TypeRef::Timestamp) => true,
        (TypeRef::FnPtr, TypeRef::FnPtr) => true,
        (TypeRef::Range, TypeRef::Range) => true,
        (TypeRef::RangeInclusive, TypeRef::RangeInclusive) => true,
        (TypeRef::Named(x), TypeRef::Named(y)) => *x == *y,
        (TypeRef::Applied { name: x, args: xs }, TypeRef::Applied { name: y, args: ys }) => {
            *x == *y && types_eq(xs, ys)
        },
        (TypeRef::Array(x), TypeRef::Array(y)) => type_eq(x, y),
        (TypeRef::Dict(xk, xv), TypeRef::Dict(yk, yv)) => type_eq(xk, yk) && type_eq(xv, yv),
        (TypeRef::Object(xs), TypeRef::Object(ys)) => fields_eq(xs, ys),
        (TypeRef::Nullable(x), TypeRef::Nullable(y)) => type_eq(x, y),
        (TypeRef::Union(xs), TypeRef::Union(ys)) => types_eq(xs, ys),
        (TypeRef::Ambiguous(xs), TypeRef::Ambiguous(ys)) => types_eq(xs, ys),
        (TypeRef::Function(f), TypeRef::Function(g)) => {
            types_eq(&f.params, &g.params) && type_eq(&f.ret, &g.ret)
        },
        _ => false,
    }
}

} // verus!

verus! {

/// A copy of a type list.
pub fn clone_types(xs: &Vec<TypeRef>) -> (r: Vec<TypeRef>)
    ensures
        views(r@) == views(xs@),
    decreases xs,
{
    let mut r: Vec<TypeRef> = Vec::new();
    let mut i: usize = 0;
    while i < xs.len()
        invariant
            0 <= i <= xs.len(),
            r@.len() == i,
            forall|j: int| 0 <= j < i ==> r@[j]@ == xs@[j]@,
        decreases xs.len() - i,
    {
        proof {
            assert(decreases_to!(xs => xs@[i as int]));
        }
        r.push(clone_type(&xs[i]));
        i += 1;
    }
    assert(views(r@) =~= views(xs@));
    r
}

/// A copy of a field list.
pub fn clone_fields(xs: &Vec<ObjectField>) -> (r: Vec<ObjectField>)
    ensures
        field_views(r@) == field_views(xs@),
    decreases xs,
{
    let mut r: Vec<ObjectField> = Vec::new();
    let mut i: usize = 0;
    while i < xs.len()
        invariant
            0 <= i <= xs.len(),
            r@.len() == i,
            forall|j: int| 0 <= j < i ==> r@[j].name@ == xs@[j].name@ && r@[j].ty@ == xs@[j].ty@,
        decreases xs.len() - i,
    {
        proof {
            assert(decreases_to!(xs => xs@));
            assert(decreases_to!(xs@ => xs@[i as int]));
            assert(decreases_to!(xs@[i as int] => xs@[i as int].ty));
        }
        r.push(ObjectField { name: xs[i].name.clone(), ty: clone_type(&xs[i].ty) });
        i += 1;
    }
    assert(field_views(r@) =~= field_views(xs@));
    r
}

/// A copy of a signature.
pub fn clone_signature(f: &FunctionTypeRef) -> (r: FunctionTypeRef)
    ensures
        r.sig() == f.sig(),
    decreases f,
{
    FunctionTypeRef { params: clone_types(&f.params), ret: Box::new(clone_type(&f.ret)) }
}

/// A copy of a type.
pub fn clone_type(t: &TypeRef) -> (r: TypeRef)
    ensures
        r@ == t@,
    decreases t,
{
    proof {
        lemma_model_unfold(*t);
    }
    let r = match t {
        TypeRef::Unknown => TypeRef::Unknown,
        TypeRef::Any => TypeRef::Any,
        TypeRef::Dynamic => TypeRef::Dynamic,
        TypeRef::Never => TypeRef::Never,
        TypeRef::Unit => TypeRef::Unit,
        TypeRef::Bool => TypeRef::Bool,
        TypeRef::Int => TypeRef::Int,
        TypeRef::Float => TypeRef::Float,
        TypeRef::Decimal => TypeRef::Decimal,
        TypeRef::String => TypeRef::String,
        TypeRef::Char => TypeRef::Char,
        TypeRef::Blob => TypeRef::Blob,
        TypeRef::Timestamp => TypeRef::Timestamp,
        TypeRef::FnPtr => TypeRef::FnPtr,
        TypeRef::Range => TypeRef::Range,
        TypeRef::RangeInclusive => TypeRef::RangeInclusive,
        TypeRef::Named(n) => TypeRef::Named(n.clone()),
        TypeRef::Applied { name, args } => TypeRef::Applied {
            name: name.clone(),
            args: clone_types(args),
        },
        TypeRef::Array(x) => TypeRef::Array(Box::new(clone_type(x))),
        TypeRef::Dict(k, v) => TypeRef::Dict(Box::new(clone_type(k)), Box::new(clone_type(v))),
        TypeRef::Object(fs) => TypeRef::Object(clone_fields(fs)),
        TypeRef::Nullable(x) => TypeRef::Nullable(Box::new(clone_type(x))),
        TypeRef::Union(xs) => TypeRef::Union(clone_types(xs)),
        TypeRef::Ambiguous(xs) => TypeRef::Ambiguous(clone_types(xs)),
        TypeRef::Function(f) => TypeRef::Function(clone_signature(f)),
    };
    proof {
        lemma_model_unfold(r);
    }
    r
}

} // verus!
