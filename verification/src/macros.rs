//! What the `#[task]` attribute and `#[derive(MetaType)]` decide about the
//! item they are applied to, on a plain description of that item.
use vstd::prelude::*;

verus! {

// ----- #[task] -----

/// A parameter of a function marked `#[task]`.
#[derive(Clone, Copy, Debug, PartialEq, Eq, Structural)]
pub enum TaskParamShape {
    /// `self`, `&self` or `&mut self`.
    Receiver,
    /// `pattern: Type`; whether the pattern is a plain identifier and whether
    /// the parameter carries `#[queue]`.
    Typed { is_ident: bool, is_queue: bool },
}

/// The parts of a function signature `#[task]` looks at.
pub struct TaskFnShape {
    pub is_async: bool,
    pub is_generic: bool,
    pub is_variadic: bool,
    pub params: Vec<TaskParamShape>,
}

/// Why `#[task]` refuses a function; parameters are given by position.
#[derive(Clone, Copy, Debug, PartialEq, Eq, Structural)]
pub enum TaskMacroError {
    Async,
    Generic,
    Variadic,
    SelfParam(usize),
    NonIdentParam(usize),
    QueueParam(usize),
}

/// The message `#[task]` reports for each refusal.
pub open spec fn task_macro_message(e: TaskMacroError) -> Seq<char> {
    match e {
        TaskMacroError::Async => "`#[task]` functions cannot be `async`"@,
        TaskMacroError::Generic => "`#[task]` functions cannot be generic"@,
        TaskMacroError::Variadic => "`#[task]` functions cannot be variadic"@,
        TaskMacroError::SelfParam(_) => "`#[task]` functions cannot take `self`"@,
        TaskMacroError::NonIdentParam(_) => "`#[task]` parameters must be plain identifiers, e.g. `value: f32`"@,
        TaskMacroError::QueueParam(_) => "`#[queue]` parameters are not supported yet; implement queue lowering in `task_macro::expand` before using them"@,
    }
}

impl TaskMacroError {
    /// The message the macro reports.
    pub fn message(&self) -> (r: &'static str)
        ensures
            r@ == task_macro_message(*self),
    {
        match self {
            TaskMacroError::Async => "`#[task]` functions cannot be `async`",
            TaskMacroError::Generic => "`#[task]` functions cannot be generic",
            TaskMacroError::Variadic => "`#[task]` functions cannot be variadic",
            TaskMacroError::SelfParam(_) => "`#[task]` functions cannot take `self`",
            TaskMacroError::NonIdentParam(_) => "`#[task]` parameters must be plain identifiers, e.g. `value: f32`",
            TaskMacroError::QueueParam(_) => "`#[queue]` parameters are not supported yet; implement queue lowering in `task_macro::expand` before using them",
        }
    }
}

/// Parameter `i` is a typed parameter with a plain identifier.
pub open spec fn param_ok(p: TaskParamShape) -> bool {
    p matches TaskParamShape::Typed { is_ident: true, .. }
}

pub open spec fn is_queue_param(p: TaskParamShape) -> bool {
    p matches TaskParamShape::Typed { is_queue: true, .. }
}

/// The first parameter that is not a plain typed identifier.
pub open spec fn first_bad_param(params: Seq<TaskParamShape>, i: int) -> bool {
    &&& 0 <= i < params.len()
    &&& !param_ok(params[i])
    &&& forall|j: int| 0 <= j < i ==> param_ok(#[trigger] params[j])
}

/// The error for a bad parameter.
pub open spec fn bad_param_error(p: TaskParamShape, i: usize) -> TaskMacroError {
    if p is Receiver {
        TaskMacroError::SelfParam(i)
    } else {
        TaskMacroError::NonIdentParam(i)
    }
}

/// Checks a `#[task]` function and returns the positions of its data
/// parameters, in order. Refuses, in this order: an async, generic or
/// variadic function; the first parameter that is `self` or not a plain
/// identifier; the first `#[queue]` parameter.
pub fn plan_task(shape: &TaskFnShape) -> (r: Result<Vec<usize>, TaskMacroError>)
    ensures
        shape.is_async ==> r == Err::<Vec<usize>, TaskMacroError>(TaskMacroError::Async),
        !shape.is_async && shape.is_generic ==> r == Err::<Vec<usize>, TaskMacroError>(TaskMacroError::Generic),
        !shape.is_async && !shape.is_generic && shape.is_variadic ==> r == Err::<Vec<usize>, TaskMacroError>(
            TaskMacroError::Variadic,
        ),
        !shape.is_async && !shape.is_generic && !shape.is_variadic ==> {
            let params = shape.params@;
            if exists|i: int| first_bad_param(params, i) {
                exists|i: int|
                    first_bad_param(params, i) && r == Err::<Vec<usize>, TaskMacroError>(
                        bad_param_error(params[i], i as usize),
                    )
            } else if exists|i: int| 0 <= i < params.len() && is_queue_param(#[trigger] params[i]) {
                exists|i: int|
                    0 <= i < params.len() && is_queue_param(params[i]) && (forall|j: int|
                        0 <= j < i ==> !is_queue_param(#[trigger] params[j])) && r == Err::<
                        Vec<usize>,
                        TaskMacroError,
                    >(TaskMacroError::QueueParam(i as usize))
            } else {
                r matches Ok(data) && data@ == Seq::new(params.len(), |j: int| j as usize)
            }
        },
{
    if shape.is_async {
        return Err(TaskMacroError::Async);
    }
    if shape.is_generic {
        return Err(TaskMacroError::Generic);
    }
    if shape.is_variadic {
        return Err(TaskMacroError::Variadic);
    }
    let ghost params = shape.params@;
    let mut data: Vec<usize> = Vec::new();
    let mut first_queue: Option<usize> = None;
    let mut i: usize = 0;
    while i < shape.params.len()
        invariant
            !shape.is_async && !shape.is_generic && !shape.is_variadic,
            params == shape.params@,
            i <= params.len(),
            forall|j: int| 0 <= j < i ==> param_ok(#[trigger] params[j]),
            first_queue is None ==> forall|j: int| 0 <= j < i ==> !is_queue_param(#[trigger] params[j]),
            first_queue matches Some(q) ==> q < i && is_queue_param(params[q as int]) && forall|j: int|
                0 <= j < q ==> !is_queue_param(#[trigger] params[j]),
            first_queue is None ==> data@ == Seq::new(i as nat, |j: int| j as usize),
        decreases params.len() - i,
    {
        match shape.params[i] {
            TaskParamShape::Receiver => {
                proof {
                    assert(first_bad_param(params, i as int));
                }
                return Err(TaskMacroError::SelfParam(i));
            },
            TaskParamShape::Typed { is_ident, is_queue } => {
                if !is_ident {
                    proof {
                        assert(first_bad_param(params, i as int));
                    }
                    return Err(TaskMacroError::NonIdentParam(i));
                }
                if is_queue {
                    if first_queue.is_none() {
                        first_queue = Some(i);
                    }
                } else {
                    data.push(i);
                }
            },
        }
        proof {
            if first_queue is None {
                assert(data@ =~= Seq::new((i + 1) as nat, |j: int| j as usize));
            }
        }
        i = i + 1;
    }
    proof {
        assert forall|k: int| !first_bad_param(params, k) by {
            if 0 <= k < params.len() {
                assert(param_ok(params[k]));
            }
        }
    }
    match first_queue {
        Some(q) => Err(TaskMacroError::QueueParam(q)),
        None => Ok(data),
    }
}

// ----- #[derive(MetaType)] -----

/// The kind of item the derive is applied to.
#[derive(Clone, Copy, Debug, PartialEq, Eq, Structural)]
pub enum ItemKind {
    Struct,
    Enum,
    Union,
}

/// An attribute on a field, as far as the derive cares: `#[opaque]` written
/// bare, `#[opaque]` with arguments, or any other attribute.
#[derive(Clone, Copy, Debug, PartialEq, Eq, Structural)]
pub enum FieldAttr {
    OpaqueBare,
    OpaqueWithArgs,
    Other,
}

/// A field of the struct: its attributes and whether it is `pub`.
pub struct FieldShape {
    pub attrs: Vec<FieldAttr>,
    pub is_public: bool,
}

/// Why the derive refuses an item.
#[derive(Clone, Copy, Debug, PartialEq, Eq, Structural)]
pub enum MetaTypeDeriveError {
    NotAStructEnum,
    NotAStructUnion,
    /// `#[opaque]` with arguments on the field at this position.
    OpaqueWithArgs(usize),
}

/// The message `#[derive(MetaType)]` reports for each refusal.
pub open spec fn derive_message(e: MetaTypeDeriveError) -> Seq<char> {
    match e {
        MetaTypeDeriveError::NotAStructEnum => "`#[derive(MetaType)]` can only be used on structs, not enums"@,
        MetaTypeDeriveError::NotAStructUnion => "`#[derive(MetaType)]` can only be used on structs, not unions"@,
        MetaTypeDeriveError::OpaqueWithArgs(_) => "`#[opaque]` does not take any arguments; write it as a bare `#[opaque]`"@,
    }
}

impl MetaTypeDeriveError {
    /// The message the derive reports.
    pub fn message(&self) -> (r: &'static str)
        ensures
            r@ == derive_message(*self),
    {
        match self {
            MetaTypeDeriveError::NotAStructEnum => "`#[derive(MetaType)]` can only be used on structs, not enums",
            MetaTypeDeriveError::NotAStructUnion => "`#[derive(MetaType)]` can only be used on structs, not unions",
            MetaTypeDeriveError::OpaqueWithArgs(_) => "`#[opaque]` does not take any arguments; write it as a bare `#[opaque]`",
        }
    }
}

pub open spec fn has_bad_opaque(f: FieldShape) -> bool {
    exists|a: int| 0 <= a < f.attrs@.len() && f.attrs@[a] == FieldAttr::OpaqueWithArgs
}

pub open spec fn has_opaque(f: FieldShape) -> bool {
    exists|a: int| 0 <= a < f.attrs@.len() && f.attrs@[a] == FieldAttr::OpaqueBare
}

/// A field the derive describes: public and not marked `#[opaque]`.
pub open spec fn exposed(f: FieldShape) -> bool {
    f.is_public && !has_opaque(f)
}

/// Whether a field carries `#[opaque]`; fails on an `#[opaque]` with
/// arguments.
fn field_is_opaque(field: &FieldShape) -> (r: Result<bool, ()>)
    ensures
        r is Err <==> has_bad_opaque(*field),
        r matches Ok(o) ==> o == has_opaque(*field),
{
    let mut opaque = false;
    let mut a: usize = 0;
    while a < field.attrs.len()
        invariant
            a <= field.attrs@.len(),
            forall|b: int| 0 <= b < a ==> field.attrs@[b] != FieldAttr::OpaqueWithArgs,
            opaque == exists|b: int| 0 <= b < a && field.attrs@[b] == FieldAttr::OpaqueBare,
        decreases field.attrs@.len() - a,
    {
        match field.attrs[a] {
            FieldAttr::Other => {},
            FieldAttr::OpaqueBare => {
                opaque = true;
            },
            FieldAttr::OpaqueWithArgs => {
                return Err(());
            },
        }
        a = a + 1;
    }
    Ok(opaque)
}

/// The positions of the fields the derive describes, in order; refuses an
/// enum, a union, and the first field with an `#[opaque]` that has
/// arguments.
pub fn exposed_fields(kind: ItemKind, fields: &Vec<FieldShape>) -> (r: Result<Vec<usize>, MetaTypeDeriveError>)
    ensures
        kind == ItemKind::Enum ==> r == Err::<Vec<usize>, MetaTypeDeriveError>(MetaTypeDeriveError::NotAStructEnum),
        kind == ItemKind::Union ==> r == Err::<Vec<usize>, MetaTypeDeriveError>(MetaTypeDeriveError::NotAStructUnion),
        kind == ItemKind::Struct ==> {
            if exists|i: int| 0 <= i < fields@.len() && has_bad_opaque(#[trigger] fields@[i]) {
                exists|i: int|
                    0 <= i < fields@.len() && has_bad_opaque(fields@[i]) && (forall|j: int|
                        0 <= j < i ==> !has_bad_opaque(#[trigger] fields@[j])) && r == Err::<
                        Vec<usize>,
                        MetaTypeDeriveError,
                    >(MetaTypeDeriveError::OpaqueWithArgs(i as usize))
            } else {
                r matches Ok(ex) && ex@ == Seq::new(fields@.len(), |j: int| j as usize).filter(
                    |j: usize| exposed(fields@[j as int]),
                )
            }
        },
{
    match kind {
        ItemKind::Enum => {
            return Err(MetaTypeDeriveError::NotAStructEnum);
        },
        ItemKind::Union => {
            return Err(MetaTypeDeriveError::NotAStructUnion);
        },
        ItemKind::Struct => {},
    }
    let ghost all = Seq::new(fields@.len(), |j: int| j as usize);
    let ghost keep = |j: usize| exposed(fields@[j as int]);
    let mut exposed_positions: Vec<usize> = Vec::new();
    let mut i: usize = 0;
    while i < fields.len()
        invariant
            kind == ItemKind::Struct,
            i <= fields@.len(),
            all == Seq::new(fields@.len(), |j: int| j as usize),
            keep == (|j: usize| exposed(fields@[j as int])),
            forall|j: int| 0 <= j < i ==> !has_bad_opaque(#[trigger] fields@[j]),
            exposed_positions@ == all.take(i as int).filter(keep),
        decreases fields@.len() - i,
    {
        proof {
            reveal_with_fuel(Seq::<_>::filter, 1);
            assert(all.take(i + 1).drop_last() =~= all.take(i as int));
        }
        let opaque = match field_is_opaque(&fields[i]) {
            Ok(o) => o,
            Err(()) => {
                return Err(MetaTypeDeriveError::OpaqueWithArgs(i));
            },
        };
        if !opaque && fields[i].is_public {
            exposed_positions.push(i);
        }
        i = i + 1;
    }
    proof {
        assert(all.take(fields@.len() as int) =~= all);
    }
    Ok(exposed_positions)
}

} // verus!
