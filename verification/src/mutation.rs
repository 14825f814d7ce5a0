//! Types along field and index paths: the container type that a write
//! through a path implies, and the type that a read through a path yields.

use vstd::prelude::*;

use crate::lattice::{join, join_types, object_type_with_field, object_value_union, opt_ty};
use crate::overload::{field_index, lemma_field_index};
use crate::ty::{clone_type, field_views, lemma_model_unfold, views, Ty, TypeRef};

verus! {

/// One step of a mutation or read path: a field by name, or an index. For
/// an index, what the path logic reads of the index expression is carried
/// along: its inferred type and, for a string literal, the field it names.
pub enum PathSegment {
    Field { name: String },
    Index { index_type: Option<TypeRef>, string_key: Option<String> },
}

/// The model of a path segment.
pub enum SegmentView {
    Field(Seq<char>),
    Index(Option<Ty>, Option<Seq<char>>),
}

/// The model of a path segment.
pub open spec fn segment_view(s: PathSegment) -> SegmentView {
    match s {
        PathSegment::Field { name } => SegmentView::Field(name@),
        PathSegment::Index { index_type, string_key } => SegmentView::Index(
            opt_ty(index_type),
            match string_key {
                Some(k) => Some(k@),
                None => None,
            },
        ),
    }
}

/// The models of a path.
pub open spec fn segment_views(ss: Seq<PathSegment>) -> Seq<SegmentView> {
    Seq::new(ss.len(), |i: int| segment_view(ss[i]))
}

/// The container that holds `inner` one step down a path: an object with
/// that field, an array for an integer index, and otherwise a map keyed by
/// the index type (unknown when it is not known).
pub open spec fn wrap_segment(s: SegmentView, inner: Ty) -> Ty {
    match s {
        SegmentView::Field(name) => Ty::Object(seq![(name, inner)]),
        SegmentView::Index(key, _) => match key {
            Some(k) => if k == Ty::Int {
                Ty::Array(Box::new(inner))
            } else {
                Ty::Dict(Box::new(k), Box::new(inner))
            },
            None => Ty::Dict(Box::new(Ty::Unknown), Box::new(inner)),
        },
    }
}

/// The type of the root container that a write of `value` through the path
/// implies.
pub open spec fn container_for(ss: Seq<SegmentView>, value: Ty) -> Ty
    decreases ss.len(),
{
    if ss.len() == 0 {
        value
    } else {
        wrap_segment(ss[0], container_for(ss.drop_first(), value))
    }
}

/// The type of the root container that a write of `value` through the given
/// path implies, as `container_for` states.
pub fn nested_mutation_container_type(segments: &[PathSegment], value: TypeRef) -> (r: TypeRef)
    ensures
        r@ == container_for(segment_views(segments@), value@),
{
    let ghost sv = segment_views(segments@);
    let ghost v = value@;
    let mut current = value;
    let mut i: usize = segments.len();
    assert(sv.skip(sv.len() as int) =~= Seq::<SegmentView>::empty());
    while i > 0
        invariant
            0 <= i <= segments.len(),
            sv == segment_views(segments@),
            current@ == container_for(sv.skip(i as int), v),
        decreases i,
    {
        proof {
            assert(sv.skip(i - 1).drop_first() =~= sv.skip(i as int));
            assert(sv.skip(i - 1)[0] == sv[i - 1]);
            assert(sv[i - 1] == segment_view(segments@[i - 1]));
        }
        let ghost inner = current@;
        current = match &segments[i - 1] {
            PathSegment::Field { name } => {
                assert(sv[i - 1] == SegmentView::Field(name@));
                let r = object_type_with_field(name.as_str(), current);
                assert(r@ == wrap_segment(sv[i - 1], inner));
                r
            },
            PathSegment::Index { index_type, .. } => match index_type {
                Some(k) => {
                    assert(sv[i - 1]->Index_0 == Some(k@));
                    if is_int(k) {
                        let r = TypeRef::Array(Box::new(current));
                        assert(r@ == wrap_segment(sv[i - 1], inner));
                        r
                    } else {
                        let r = TypeRef::Dict(Box::new(clone_type(k)), Box::new(current));
                        assert(r@ == wrap_segment(sv[i - 1], inner));
                        r
                    }
                },
                None => {
                    assert(sv[i - 1]->Index_0 is None);
                    let r = TypeRef::Dict(Box::new(TypeRef::Unknown), Box::new(current));
                    assert(r@ == wrap_segment(sv[i - 1], inner));
                    r
                },
            },
        };
        assert(current@ == wrap_segment(sv[i - 1], inner));
        i -= 1;
    }
    assert(sv.skip(0) =~= sv);
    current
}

fn is_int(t: &TypeRef) -> (r: bool)
    ensures
        r == (t@ == Ty::Int),
{
    match t {
        TypeRef::Int => true,
        _ => false,
    }
}

/// Whether the path is the single field `field_name`.
pub fn matches_top_level_field_segment(segments: &[PathSegment], field_name: &str) -> (r: bool)
    ensures
        r == (segments@.len() == 1 && segment_view(segments@[0]) == SegmentView::Field(field_name@)),
{
    if segments.len() != 1 {
        return false;
    }
    match &segments[0] {
        PathSegment::Field { name } => crate::generics::str_eq(name.as_str(), field_name),
        _ => false,
    }
}

/// The type of a field of an object: the field's own type when the object
/// has it, and otherwise the join of all its field types.
pub open spec fn object_field_read(fs: Seq<(Seq<char>, Ty)>, name: Option<Seq<char>>) -> Option<Ty> {
    match name {
        Some(n) => if field_index(fs, n) >= 0 {
            Some(fs[field_index(fs, n)].1)
        } else {
            object_value_union(fs)
        },
        None => object_value_union(fs),
    }
}

/// The type that reading one path step from a value of type `t` yields:
/// fields read from objects and maps; indexes read from arrays, maps,
/// objects (by a string key), through nullables, and from a union the join,
/// in order, of what its members yield.
pub open spec fn segment_read(t: Ty, s: SegmentView) -> Option<Ty>
    decreases t,
{
    match s {
        SegmentView::Field(name) => match t {
            Ty::Object(fs) => object_field_read(fs, Some(name)),
            Ty::Dict(_, v) => Some(*v),
            _ => None,
        },
        SegmentView::Index(_, key) => match t {
            Ty::Array(inner) => Some(*inner),
            Ty::Dict(_, v) => Some(*v),
            Ty::Object(fs) => object_field_read(fs, key),
            Ty::Nullable(inner) => segment_read(*inner, s),
            Ty::Union(items) => fold_reads(items, s),
            _ => None,
        },
    }
}

/// The join, in order, of what reading one step from each type yields.
pub open spec fn fold_reads(items: Seq<Ty>, s: SegmentView) -> Option<Ty>
    decreases items,
{
    if items.len() == 0 {
        None
    } else {
        let merged = fold_reads(items.drop_last(), s);
        match segment_read(items[items.len() - 1], s) {
            None => merged,
            Some(next) => Some(
                match merged {
                    Some(current) => join(current, next),
                    None => next,
                },
            ),
        }
    }
}

/// The type of the named field of an object, as `object_field_read` states.
fn object_field_read_exec(fields: &Vec<crate::ty::ObjectField>, name: Option<&str>) -> (r: Option<TypeRef>)
    ensures
        opt_ty(r) == object_field_read(
            field_views(fields@),
            match name {
                Some(n) => Some(n@),
                None => None,
            },
        ),
{
    if let Some(n) = name {
        proof {
            lemma_field_index(field_views(fields@), n@);
        }
        if let Some(k) = crate::overload::field_index_exec(fields, n) {
            assert(field_views(fields@)[k as int].1 == fields@[k as int].ty@);
            return Some(clone_type(&fields[k].ty));
        }
    }
    crate::lattice::inferred_object_value_union(fields)
}

/// The type that reading one path step from a value of the given type
/// yields, as `segment_read` states.
#[verifier::loop_isolation(false)]
pub fn path_segment_read_type(current: &TypeRef, segment: &PathSegment) -> (r: Option<TypeRef>)
    ensures
        opt_ty(r) == segment_read(current@, segment_view(*segment)),
    decreases current,
{
    proof {
        lemma_model_unfold(*current);
    }
    match segment {
        PathSegment::Field { name } => match current {
            TypeRef::Object(fields) => object_field_read_exec(fields, Some(name.as_str())),
            TypeRef::Dict(_, value) => Some(clone_type(value)),
            _ => None,
        },
        PathSegment::Index { string_key, .. } => match current {
            TypeRef::Array(inner) => Some(clone_type(inner)),
            TypeRef::Dict(_, value) => Some(clone_type(value)),
            TypeRef::Object(fields) => {
                let key = match string_key {
                    Some(k) => Some(k.as_str()),
                    None => None,
                };
                object_field_read_exec(fields, key)
            },
            TypeRef::Nullable(inner) => path_segment_read_type(inner, segment),
            TypeRef::Union(items) => {
                let ghost iv = views(items@);
                let ghost s = segment_view(*segment);
                let mut merged: Option<TypeRef> = None;
                let mut i: usize = 0;
                while i < items.len()
                    invariant
                        0 <= i <= items.len(),
                        iv == views(items@),
                        s == segment_view(*segment),
                        opt_ty(merged) == fold_reads(iv.take(i as int), s),
                    decreases items.len() - i,
                {
                    proof {
                        assert(decreases_to!(*current => items@[i as int]));
                        assert(iv.take(i + 1).drop_last() =~= iv.take(i as int));
                        assert(iv.take(i + 1)[i as int] == items@[i as int]@);
                    }
                    let next = path_segment_read_type(&items[i], segment);
                    if let Some(next) = next {
                        merged = Some(
                            match merged {
                                Some(acc) => join_types(&acc, &next),
                                None => next,
                            },
                        );
                    }
                    i += 1;
                }
                assert(iv.take(i as int) =~= iv);
                merged
            },
            _ => None,
        },
    }
}

/// The type that reading a whole path from a value of type `root` yields;
/// none as soon as one step yields none.
pub open spec fn path_read(root: Ty, ss: Seq<SegmentView>) -> Option<Ty>
    decreases ss.len(),
{
    if ss.len() == 0 {
        Some(root)
    } else {
        match segment_read(root, ss[0]) {
            Some(next) => path_read(next, ss.drop_first()),
            None => None,
        }
    }
}

/// The type that reading the given path from a value of the given type
/// yields, as `path_read` states.
pub fn read_type_from_segments(root: &TypeRef, segments: &[PathSegment]) -> (r: Option<TypeRef>)
    ensures
        opt_ty(r) == path_read(root@, segment_views(segments@)),
{
    let ghost sv = segment_views(segments@);
    let mut current = clone_type(root);
    let mut i: usize = 0;
    assert(sv.skip(0) =~= sv);
    while i < segments.len()
        invariant
            0 <= i <= segments.len(),
            sv == segment_views(segments@),
            path_read(current@, sv.skip(i as int)) == path_read(root@, sv),
        decreases segments.len() - i,
    {
        proof {
            assert(sv.skip(i as int).drop_first() =~= sv.skip(i + 1));
            assert(sv.skip(i as int)[0] == sv[i as int]);
        }
        match path_segment_read_type(&current, &segments[i]) {
            Some(next) => {
                current = next;
            },
            None => {
                return None;
            },
        }
        i += 1;
    }
    assert(sv.skip(i as int) =~= Seq::<SegmentView>::empty());
    Some(current)
}

} // verus!
