//! The rules of the `Injectable` derive: which structs it accepts, and how
//! each field is filled.
//!
//! A struct qualifies when it has no generic parameters and named fields
//! only, each of type `Shared<T>`; each such field is filled by resolving
//! `T` from the injector. The checks run in this order: generics, then the
//! item's shape, then the fields one by one (a field's name before its
//! type), and the first failed check is reported.
use vstd::prelude::*;
use vstd::string::*;

verus! {

/// The shape of the item the derive is applied to.
#[derive(Clone, Copy, Debug, PartialEq, Eq, Structural)]
pub enum ItemShape {
    /// A struct with named fields.
    NamedStruct,
    /// A tuple struct or a unit struct.
    OtherStruct,
    /// An enum or a union.
    NotAStruct,
}

/// The generic arguments of the last segment of a field's type path.
#[derive(Clone, Copy, Debug, PartialEq, Eq, Structural)]
pub enum TypeArguments {
    /// `<...>` whose first argument is a type.
    FirstIsType,
    /// `<...>` whose first argument is not a type, or that is empty.
    FirstIsNotType,
    /// No angle-bracketed arguments.
    NotAngleBracketed,
}

/// What the derive reads of one field.
pub struct FieldShape {
    /// The field's name, if it has one.
    pub name: Option<String>,
    /// The last segment of the field's type, when the type is a path.
    pub last_segment: Option<String>,
    /// The generic arguments of that segment.
    pub arguments: TypeArguments,
}

/// Why the derive refuses an item; the index is that of the offending field.
#[derive(Clone, Copy, Debug, PartialEq, Eq, Structural)]
pub enum InjectableError {
    GenericStruct,
    FieldsNotNamed,
    NotAStruct,
    UnnamedField(usize),
    NotShared(usize),
}

/// The type of the field is `Shared<T>` for some type `T`.
pub open spec fn is_shared_dependency(f: FieldShape) -> bool {
    &&& f.last_segment matches Some(s) && s@ == "Shared"@
    &&& f.arguments == TypeArguments::FirstIsType
}

/// The error for field `i`, if it breaks a rule.
pub open spec fn field_error(f: FieldShape, i: usize) -> Option<InjectableError> {
    if f.name is None {
        Some(InjectableError::UnnamedField(i))
    } else if !is_shared_dependency(f) {
        Some(InjectableError::NotShared(i))
    } else {
        None
    }
}

/// The first error among the first `n` fields.
pub open spec fn first_field_error(fields: Seq<FieldShape>, n: nat) -> Option<InjectableError>
    decreases n,
{
    if n == 0 {
        None
    } else {
        match first_field_error(fields, (n - 1) as nat) {
            Some(e) => Some(e),
            None => field_error(fields[n - 1], (n - 1) as usize),
        }
    }
}

/// The outcome of the derive's checks.
pub open spec fn injectable_outcome(has_generics: bool, shape: ItemShape, fields: Seq<FieldShape>) -> Option<InjectableError> {
    if has_generics {
        Some(InjectableError::GenericStruct)
    } else {
        match shape {
            ItemShape::NamedStruct => first_field_error(fields, fields.len()),
            ItemShape::OtherStruct => Some(InjectableError::FieldsNotNamed),
            ItemShape::NotAStruct => Some(InjectableError::NotAStruct),
        }
    }
}

/// Once a field breaks a rule, it is the first error for every longer prefix.
proof fn lemma_first_error_stays(fields: Seq<FieldShape>, k: nat, n: nat)
    requires
        k <= n,
        first_field_error(fields, k) is Some,
    ensures
        first_field_error(fields, n) == first_field_error(fields, k),
    decreases n - k,
{
    if k < n {
        lemma_first_error_stays(fields, k, (n - 1) as nat);
    }
}

/// Whether a field's type is `Shared<T>`: its last path segment is
/// `Shared` and the first of its angle-bracketed arguments is a type.
pub fn shared_dependency(field: &FieldShape) -> (r: bool)
    ensures
        r == is_shared_dependency(*field),
{
    let named_shared = match &field.last_segment {
        Some(s) => {
            let mut expected = String::new();
            expected.append("Shared");
            s.eq(&expected)
        },
        None => false,
    };
    named_shared && field.arguments == TypeArguments::FirstIsType
}

/// Checks an item against the rules of the derive.
pub fn check_injectable(has_generics: bool, shape: ItemShape, fields: &Vec<FieldShape>) -> (r: Result<(), InjectableError>)
    ensures
        match injectable_outcome(has_generics, shape, fields@) {
            Some(e) => r == Err::<(), InjectableError>(e),
            None => r is Ok,
        },
{
    if has_generics {
        return Err(InjectableError::GenericStruct);
    }
    match shape {
        ItemShape::OtherStruct => return Err(InjectableError::FieldsNotNamed),
        ItemShape::NotAStruct => return Err(InjectableError::NotAStruct),
        ItemShape::NamedStruct => {},
    }
    let mut i: usize = 0;
    while i < fields.len()
        invariant
            0 <= i <= fields@.len(),
            !has_generics,
            shape == ItemShape::NamedStruct,
            first_field_error(fields@, i as nat) is None,
        decreases fields@.len() - i,
    {
        if fields[i].name.is_none() {
            proof {
                lemma_first_error_stays(fields@, (i + 1) as nat, fields@.len());
            }
            return Err(InjectableError::UnnamedField(i));
        }
        if !shared_dependency(&fields[i]) {
            proof {
                lemma_first_error_stays(fields@, (i + 1) as nat, fields@.len());
            }
            return Err(InjectableError::NotShared(i));
        }
        i = i + 1;
    }
    Ok(())
}

pub open spec fn injectable_error_text(e: InjectableError) -> Seq<char> {
    match e {
        InjectableError::GenericStruct => "Injectable derive currently does not support generic structs"@,
        InjectableError::FieldsNotNamed => "Injectable derive requires a struct with named fields"@,
        InjectableError::NotAStruct => "Injectable derive only supports structs"@,
        InjectableError::UnnamedField(_) => "Injectable field must be named"@,
        InjectableError::NotShared(_) => "Injectable fields must be typed as Shared<T>"@,
    }
}

/// The compile error message of a refusal.
pub fn injectable_error_message(e: InjectableError) -> (r: &'static str)
    ensures
        r@ == injectable_error_text(e),
{
    match e {
        InjectableError::GenericStruct => "Injectable derive currently does not support generic structs",
        InjectableError::FieldsNotNamed => "Injectable derive requires a struct with named fields",
        InjectableError::NotAStruct => "Injectable derive only supports structs",
        InjectableError::UnnamedField(_) => "Injectable field must be named",
        InjectableError::NotShared(_) => "Injectable fields must be typed as Shared<T>",
    }
}

} // verus!
