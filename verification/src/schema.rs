//! The NUI contract (`nui-schema.yaml`): its data model and the rules that a
//! contract must meet before code is generated from it.
use crate::text::{chars_eq, contains_chars, push_str, str_chars, string_of, trim, trim_bounds};
use vstd::prelude::*;

verus! {

/// Root of a NUI contract.
#[derive(Debug)]
pub struct NuiSchema {
    pub version: String,
    pub resource: String,
    pub enums: Vec<EnumDefinition>,
    pub events: Vec<EventDefinition>,
    pub endpoints: Vec<EndpointDefinition>,
}

/// A named set of string constants shared by the UI and Lua.
#[derive(Debug)]
pub struct EnumDefinition {
    pub name: String,
    pub description: Option<String>,
    pub values: Vec<String>,
}

/// A one-way event sent from Lua to the UI.
#[derive(Debug)]
pub struct EventDefinition {
    pub name: String,
    pub description: Option<String>,
    pub payload: TypeDefinition,
}

/// A two-way callback endpoint between the UI and Lua.
#[derive(Debug)]
pub struct EndpointDefinition {
    pub name: String,
    pub endpoint_type: EndpointType,
    pub description: Option<String>,
    pub request: Option<TypeDefinition>,
    pub response: TypeDefinition,
}

/// Whether an endpoint fetches data or performs an action.
#[derive(Debug, Clone, Copy, PartialEq, Eq, Structural)]
pub enum EndpointType {
    Query,
    Mutation,
}

/// The type of a payload, a request or a response.
#[derive(Debug)]
pub enum TypeDefinition {
    /// A primitive or enum name, optional when it ends in `?`.
    Primitive(String),
    /// `[item]`: a list whose one element is the item type.
    Array(Vec<TypeDefinition>),
    /// The fields of an object, in key order: a well-formed object has
    /// strictly increasing names (see [`type_well_formed`]), as the keys of a
    /// sorted map have.
    Object(Vec<FieldDefinition>),
}

/// One field of an object type.
#[derive(Debug)]
pub struct FieldDefinition {
    pub name: String,
    pub ty: TypeDefinition,
}

impl TypeDefinition {
    /// A primitive type marked optional with a trailing `?`.
    pub fn is_optional(&self) -> (b: bool)
        ensures
            b == (self matches TypeDefinition::Primitive(v) && v@.len() > 0 && v@.last() == '?'),
    {
        match self {
            TypeDefinition::Primitive(v) => {
                let c = str_chars(v.as_str());
                c.len() > 0 && c[c.len() - 1] == '?'
            },
            _ => false,
        }
    }
}

/// Which kind of definition carries an empty name.
#[derive(Debug, Clone, Copy, PartialEq, Eq, Structural)]
pub enum NameKind {
    Enum,
    Event,
    Endpoint,
}

/// Why a contract is refused.
#[derive(Debug, Clone, PartialEq, Eq)]
pub enum SchemaError {
    /// The version or the resource is blank.
    EmptyHeader,
    /// A definition's name is blank.
    EmptyName(NameKind),
    /// An enum is named like a built-in type.
    ReservedEnumName(String),
    /// Two enums share a name.
    DuplicateEnumName(String),
    /// An enum has no values.
    NoEnumValues(String),
    /// An enum has a blank value.
    EmptyEnumValue(String),
    /// An enum has a value twice: the value as written, and the enum.
    DuplicateEnumValue(String, String),
    /// A type names neither a primitive nor a defined enum.
    UnsupportedType(String),
    /// An array type without exactly one item type.
    ArrayArity,
}

/// [`SchemaError`] over character sequences.
pub enum SchemaErr {
    EmptyHeader,
    EmptyName(NameKind),
    ReservedEnumName(Seq<char>),
    DuplicateEnumName(Seq<char>),
    NoEnumValues(Seq<char>),
    EmptyEnumValue(Seq<char>),
    DuplicateEnumValue(Seq<char>, Seq<char>),
    UnsupportedType(Seq<char>),
    ArrayArity,
}

impl View for SchemaError {
    type V = SchemaErr;

    open spec fn view(&self) -> SchemaErr {
        match self {
            SchemaError::EmptyHeader => SchemaErr::EmptyHeader,
            SchemaError::EmptyName(k) => SchemaErr::EmptyName(*k),
            SchemaError::ReservedEnumName(n) => SchemaErr::ReservedEnumName(n@),
            SchemaError::DuplicateEnumName(n) => SchemaErr::DuplicateEnumName(n@),
            SchemaError::NoEnumValues(n) => SchemaErr::NoEnumValues(n@),
            SchemaError::EmptyEnumValue(n) => SchemaErr::EmptyEnumValue(n@),
            SchemaError::DuplicateEnumValue(v, n) => SchemaErr::DuplicateEnumValue(v@, n@),
            SchemaError::UnsupportedType(t) => SchemaErr::UnsupportedType(t@),
            SchemaError::ArrayArity => SchemaErr::ArrayArity,
        }
    }
}

/// The word for a kind of definition.
pub open spec fn kind_word(k: NameKind) -> Seq<char> {
    match k {
        NameKind::Enum => "enum"@,
        NameKind::Event => "event"@,
        NameKind::Endpoint => "endpoint"@,
    }
}

/// The message of a refusal.
pub open spec fn error_text(e: SchemaErr) -> Seq<char> {
    match e {
        SchemaErr::EmptyHeader => "schema version and resource must not be empty"@,
        SchemaErr::EmptyName(k) => kind_word(k) + " name must not be empty"@,
        SchemaErr::ReservedEnumName(n) => "enum name '"@ + n
            + "' conflicts with built-in primitive type"@,
        SchemaErr::DuplicateEnumName(n) => "duplicate enum name '"@ + n + "'"@,
        SchemaErr::NoEnumValues(n) => "enum '"@ + n + "' must have at least one value"@,
        SchemaErr::EmptyEnumValue(n) => "enum '"@ + n + "' contains an empty value"@,
        SchemaErr::DuplicateEnumValue(v, n) => "duplicate value '"@ + v + "' in enum '"@ + n
            + "'"@,
        SchemaErr::UnsupportedType(t) => "unsupported type '"@ + t
            + "'; expected string, number, boolean, or a defined enum"@,
        SchemaErr::ArrayArity => "array types must contain exactly one item type"@,
    }
}

impl SchemaError {
    /// The message of the refusal.
    pub fn message(&self) -> (m: String)
        ensures
            m@ == error_text(self@),
    {
        let mut m = String::new();
        match self {
            SchemaError::EmptyHeader => {
                push_str(&mut m, "schema version and resource must not be empty");
            },
            SchemaError::EmptyName(k) => {
                match k {
                    NameKind::Enum => push_str(&mut m, "enum"),
                    NameKind::Event => push_str(&mut m, "event"),
                    NameKind::Endpoint => push_str(&mut m, "endpoint"),
                }
                push_str(&mut m, " name must not be empty");
            },
            SchemaError::ReservedEnumName(n) => {
                push_str(&mut m, "enum name '");
                push_str(&mut m, n.as_str());
                push_str(&mut m, "' conflicts with built-in primitive type");
            },
            SchemaError::DuplicateEnumName(n) => {
                push_str(&mut m, "duplicate enum name '");
                push_str(&mut m, n.as_str());
                push_str(&mut m, "'");
            },
            SchemaError::NoEnumValues(n) => {
                push_str(&mut m, "enum '");
                push_str(&mut m, n.as_str());
                push_str(&mut m, "' must have at least one value");
            },
            SchemaError::EmptyEnumValue(n) => {
                push_str(&mut m, "enum '");
                push_str(&mut m, n.as_str());
                push_str(&mut m, "' contains an empty value");
            },
            SchemaError::DuplicateEnumValue(v, n) => {
                push_str(&mut m, "duplicate value '");
                push_str(&mut m, v.as_str());
                push_str(&mut m, "' in enum '");
                push_str(&mut m, n.as_str());
                push_str(&mut m, "'");
            },
            SchemaError::UnsupportedType(t) => {
                push_str(&mut m, "unsupported type '");
                push_str(&mut m, t.as_str());
                push_str(&mut m, "'; expected string, number, boolean, or a defined enum");
            },
            SchemaError::ArrayArity => {
                push_str(&mut m, "array types must contain exactly one item type");
            },
        }
        m
    }
}

// ---------------------------------------------------------------------------
// The rules
// ---------------------------------------------------------------------------

/// The built-in primitive type names.
pub open spec fn is_primitive_name(s: Seq<char>) -> bool {
    s == "string"@ || s == "number"@ || s == "boolean"@
}

/// Names that an enum may not take.
pub open spec fn is_reserved_name(s: Seq<char>) -> bool {
    is_primitive_name(s) || s == "void"@
}

/// `s` without its trailing `?` marks.
pub open spec fn strip_optional(s: Seq<char>) -> Seq<char>
    decreases s.len(),
{
    if s.len() > 0 && s.last() == '?' {
        strip_optional(s.drop_last())
    } else {
        s
    }
}

/// The first fault of a type, given the enum names defined; `None` when it is
/// valid. The fields of an object are checked in order.
pub open spec fn type_check(ty: TypeDefinition, known: Seq<Seq<char>>) -> Option<SchemaErr>
    decreases ty,
{
    match ty {
        TypeDefinition::Primitive(v) => {
            let base = strip_optional(v@);
            if is_primitive_name(base) || known.contains(base) {
                None
            } else {
                Some(SchemaErr::UnsupportedType(base))
            }
        },
        TypeDefinition::Array(items) => {
            if items@.len() != 1 {
                Some(SchemaErr::ArrayArity)
            } else {
                type_check(items@[0], known)
            }
        },
        TypeDefinition::Object(fields) => fields_check(fields@, known),
    }
}

/// The first fault among the types of `fields`, in order.
pub open spec fn fields_check(fields: Seq<FieldDefinition>, known: Seq<Seq<char>>) -> Option<
    SchemaErr,
>
    decreases fields,
{
    if fields.len() == 0 {
        None
    } else {
        match type_check(fields[0].ty, known) {
            Some(e) => Some(e),
            None => fields_check(fields.drop_first(), known),
        }
    }
}

/// The texts of character vectors.
pub open spec fn names_view(v: Seq<Vec<char>>) -> Seq<Seq<char>> {
    v.map_values(|n: Vec<char>| n@)
}

/// Whether `s` is one of the primitive type names.
fn is_primitive(s: &[char]) -> (b: bool)
    ensures
        b == is_primitive_name(s@),
{
    let a = str_chars("string");
    let b = str_chars("number");
    let c = str_chars("boolean");
    chars_eq(s, a.as_slice()) || chars_eq(s, b.as_slice()) || chars_eq(s, c.as_slice())
}

/// The length of `strip_optional(s)`.
fn stripped_len(s: &[char]) -> (n: usize)
    ensures
        n <= s@.len(),
        s@.take(n as int) == strip_optional(s@),
{
    let mut n = s.len();
    proof {
        assert(s@.take(n as int) =~= s@);
    }
    while n > 0 && s[n - 1] == '?'
        invariant
            n <= s@.len(),
            strip_optional(s@.take(n as int)) == strip_optional(s@),
        decreases n,
    {
        proof {
            assert(s@.take(n as int).drop_last() =~= s@.take(n - 1));
        }
        n = n - 1;
    }
    n
}

/// Checks a type against the enum names `known`.
fn validate_type(ty: &TypeDefinition, known: &Vec<Vec<char>>) -> (r: Result<(), SchemaError>)
    ensures
        match r {
            Ok(()) => type_check(*ty, names_view(known@)) is None,
            Err(e) => type_check(*ty, names_view(known@)) == Some(e@),
        },
    decreases ty,
{
    match ty {
        TypeDefinition::Primitive(v) => {
            let c = str_chars(v.as_str());
            let n = stripped_len(c.as_slice());
            let base = string_of(c.as_slice(), 0, n);
            let bc = str_chars(base.as_str());
            proof {
                assert(c@.subrange(0, n as int) =~= c@.take(n as int));
            }
            if is_primitive(bc.as_slice()) || contains_chars(known, bc.as_slice()) {
                Ok(())
            } else {
                Err(SchemaError::UnsupportedType(base))
            }
        },
        TypeDefinition::Array(items) => {
            if items.len() != 1 {
                Err(SchemaError::ArrayArity)
            } else {
                validate_type(&items[0], known)
            }
        },
        TypeDefinition::Object(fields) => {
            let mut i: usize = 0;
            proof {
                assert(fields@.skip(0) =~= fields@);
            }
            while i < fields.len()
                invariant
                    i <= fields@.len(),
                    *ty == TypeDefinition::Object(*fields),
                    fields_check(fields@, names_view(known@)) == fields_check(
                        fields@.skip(i as int),
                        names_view(known@),
                    ),
                decreases fields.len() - i,
            {
                proof {
                    assert(fields@.skip(i as int)[0] == fields@[i as int]);
                    assert(fields@.skip(i as int).drop_first() =~= fields@.skip(i + 1));
                }
                match validate_type(&fields[i].ty, known) {
                    Err(e) => {
                        return Err(e);
                    },
                    Ok(()) => {},
                }
                i = i + 1;
            }
            Ok(())
        },
    }
}

/// The trimmed values of an enum.
pub open spec fn trimmed_values(vals: Seq<String>) -> Seq<Seq<char>> {
    vals.map_values(|v: String| trim(v@))
}

/// The first fault among the values of the enum `name`: a blank value, or one
/// whose trimmed text came before.
pub open spec fn values_check(name: Seq<char>, vals: Seq<String>) -> Option<SchemaErr>
    decreases vals.len(),
{
    if vals.len() == 0 {
        None
    } else {
        match values_check(name, vals.drop_last()) {
            Some(e) => Some(e),
            None => {
                let v = vals.last()@;
                if trim(v).len() == 0 {
                    Some(SchemaErr::EmptyEnumValue(name))
                } else if trimmed_values(vals.drop_last()).contains(trim(v)) {
                    Some(SchemaErr::DuplicateEnumValue(v, name))
                } else {
                    None
                }
            },
        }
    }
}

/// The first fault of an enum, given the names of the enums before it.
pub open spec fn enum_check(e: EnumDefinition, known: Seq<Seq<char>>) -> Option<SchemaErr> {
    let name = trim(e.name@);
    if name.len() == 0 {
        Some(SchemaErr::EmptyName(NameKind::Enum))
    } else if is_reserved_name(name) {
        Some(SchemaErr::ReservedEnumName(name))
    } else if known.contains(name) {
        Some(SchemaErr::DuplicateEnumName(name))
    } else if e.values@.len() == 0 {
        Some(SchemaErr::NoEnumValues(name))
    } else {
        values_check(name, e.values@)
    }
}

/// The trimmed names of the enums.
pub open spec fn enum_names(enums: Seq<EnumDefinition>) -> Seq<Seq<char>> {
    enums.map_values(|e: EnumDefinition| trim(e.name@))
}

/// The first fault among the enums, each checked against those before it.
pub open spec fn enums_check(enums: Seq<EnumDefinition>) -> Option<SchemaErr>
    decreases enums.len(),
{
    if enums.len() == 0 {
        None
    } else {
        match enums_check(enums.drop_last()) {
            Some(e) => Some(e),
            None => enum_check(enums.last(), enum_names(enums.drop_last())),
        }
    }
}

/// The first fault of an event.
pub open spec fn event_check(e: EventDefinition, known: Seq<Seq<char>>) -> Option<SchemaErr> {
    if trim(e.name@).len() == 0 {
        Some(SchemaErr::EmptyName(NameKind::Event))
    } else {
        type_check(e.payload, known)
    }
}

/// The first fault among the events, in order.
pub open spec fn events_check(events: Seq<EventDefinition>, known: Seq<Seq<char>>) -> Option<
    SchemaErr,
>
    decreases events.len(),
{
    if events.len() == 0 {
        None
    } else {
        match events_check(events.drop_last(), known) {
            Some(e) => Some(e),
            None => event_check(events.last(), known),
        }
    }
}

/// The first fault of an endpoint: its name, its request, then its response.
pub open spec fn endpoint_check(e: EndpointDefinition, known: Seq<Seq<char>>) -> Option<
    SchemaErr,
> {
    if trim(e.name@).len() == 0 {
        Some(SchemaErr::EmptyName(NameKind::Endpoint))
    } else {
        match e.request {
            Some(req) => match type_check(req, known) {
                Some(err) => Some(err),
                None => type_check(e.response, known),
            },
            None => type_check(e.response, known),
        }
    }
}

/// The first fault among the endpoints, in order.
pub open spec fn endpoints_check(endpoints: Seq<EndpointDefinition>, known: Seq<Seq<char>>) -> Option<
    SchemaErr,
>
    decreases endpoints.len(),
{
    if endpoints.len() == 0 {
        None
    } else {
        match endpoints_check(endpoints.drop_last(), known) {
            Some(e) => Some(e),
            None => endpoint_check(endpoints.last(), known),
        }
    }
}

/// The first fault of a contract, `None` when it is valid: the header, then
/// the enums, the events and the endpoints, in order.
pub open spec fn schema_check(s: NuiSchema) -> Option<SchemaErr> {
    if trim(s.version@).len() == 0 || trim(s.resource@).len() == 0 {
        Some(SchemaErr::EmptyHeader)
    } else {
        match enums_check(s.enums@) {
            Some(e) => Some(e),
            None => match events_check(s.events@, enum_names(s.enums@)) {
                Some(e) => Some(e),
                None => endpoints_check(s.endpoints@, enum_names(s.enums@)),
            },
        }
    }
}

/// Once the values before `n` show a fault, it is the fault of all of them.
proof fn lemma_values_first_fault(name: Seq<char>, vals: Seq<String>, n: int)
    requires
        0 <= n <= vals.len(),
        values_check(name, vals.take(n)) is Some,
    ensures
        values_check(name, vals) == values_check(name, vals.take(n)),
    decreases vals.len() - n,
{
    if n < vals.len() {
        assert(vals.take(n + 1).drop_last() =~= vals.take(n));
        lemma_values_first_fault(name, vals, n + 1);
    } else {
        assert(vals.take(n) =~= vals);
    }
}

/// Once the enums before `n` show a fault, it is the fault of all of them.
proof fn lemma_enums_first_fault(enums: Seq<EnumDefinition>, n: int)
    requires
        0 <= n <= enums.len(),
        enums_check(enums.take(n)) is Some,
    ensures
        enums_check(enums) == enums_check(enums.take(n)),
    decreases enums.len() - n,
{
    if n < enums.len() {
        assert(enums.take(n + 1).drop_last() =~= enums.take(n));
        lemma_enums_first_fault(enums, n + 1);
    } else {
        assert(enums.take(n) =~= enums);
    }
}

/// Once the events before `n` show a fault, it is the fault of all of them.
proof fn lemma_events_first_fault(events: Seq<EventDefinition>, known: Seq<Seq<char>>, n: int)
    requires
        0 <= n <= events.len(),
        events_check(events.take(n), known) is Some,
    ensures
        events_check(events, known) == events_check(events.take(n), known),
    decreases events.len() - n,
{
    if n < events.len() {
        assert(events.take(n + 1).drop_last() =~= events.take(n));
        lemma_events_first_fault(events, known, n + 1);
    } else {
        assert(events.take(n) =~= events);
    }
}

/// Once the endpoints before `n` show a fault, it is the fault of all of them.
proof fn lemma_endpoints_first_fault(
    endpoints: Seq<EndpointDefinition>,
    known: Seq<Seq<char>>,
    n: int,
)
    requires
        0 <= n <= endpoints.len(),
        endpoints_check(endpoints.take(n), known) is Some,
    ensures
        endpoints_check(endpoints, known) == endpoints_check(endpoints.take(n), known),
    decreases endpoints.len() - n,
{
    if n < endpoints.len() {
        assert(endpoints.take(n + 1).drop_last() =~= endpoints.take(n));
        lemma_endpoints_first_fault(endpoints, known, n + 1);
    } else {
        assert(endpoints.take(n) =~= endpoints);
    }
}

/// The trimmed characters of `s`.
fn trimmed(s: &str) -> (r: Vec<char>)
    ensures
        r@ == trim(s@),
{
    let c = str_chars(s);
    let (a, b) = trim_bounds(c.as_slice(), 0, c.len());
    let mut r: Vec<char> = Vec::new();
    let mut k = a;
    while k < b
        invariant
            a <= k <= b <= c@.len(),
            r@ == c@.subrange(a as int, k as int),
        decreases b - k,
    {
        r.push(c[k]);
        k = k + 1;
        assert(r@ =~= c@.subrange(a as int, k as int));
    }
    proof {
        assert(c@.subrange(0, c@.len() as int) =~= c@);
    }
    r
}

/// The string of the characters `v`.
fn string_of_chars(v: &Vec<char>) -> (r: String)
    ensures
        r@ == v@,
{
    let r = string_of(v.as_slice(), 0, v.len());
    assert(v@.subrange(0, v@.len() as int) =~= v@);
    r
}

/// Checks the values of the enum `name`.
#[verifier::loop_isolation(false)]
fn validate_values(name: &Vec<char>, vals: &Vec<String>) -> (r: Result<(), SchemaError>)
    ensures
        match r {
            Ok(()) => values_check(name@, vals@) is None,
            Err(e) => values_check(name@, vals@) == Some(e@),
        },
{
    let mut seen: Vec<Vec<char>> = Vec::new();
    let mut i: usize = 0;
    while i < vals.len()
        invariant
            i <= vals@.len(),
            names_view(seen@) == trimmed_values(vals@.take(i as int)),
            values_check(name@, vals@.take(i as int)) is None,
        decreases vals.len() - i,
    {
        proof {
            assert(vals@.take(i + 1).drop_last() =~= vals@.take(i as int));
            assert(vals@.take(i + 1).last() == vals@[i as int]);
        }
        let t = trimmed(vals[i].as_str());
        if t.len() == 0 {
            proof {
                lemma_values_first_fault(name@, vals@, i + 1);
            }
            return Err(SchemaError::EmptyEnumValue(string_of_chars(name)));
        }
        if contains_chars(&seen, t.as_slice()) {
            let v = string_of_chars(&str_chars(vals[i].as_str()));
            proof {
                lemma_values_first_fault(name@, vals@, i + 1);
            }
            return Err(SchemaError::DuplicateEnumValue(v, string_of_chars(name)));
        }
        let ghost before = names_view(seen@);
        seen.push(t);
        proof {
            assert(names_view(seen@) =~= before.push(trim(vals@[i as int]@)));
            assert(trimmed_values(vals@.take(i + 1)) =~= trimmed_values(vals@.take(i as int)).push(
                trim(vals@[i as int]@),
            ));
        }
        i = i + 1;
    }
    proof {
        assert(vals@.take(i as int) =~= vals@);
    }
    Ok(())
}

/// Checks one enum against the names of the enums before it, and adds its
/// trimmed name to them when it passes.
fn validate_enum(e: &EnumDefinition, known: &mut Vec<Vec<char>>) -> (r: Result<(), SchemaError>)
    ensures
        match r {
            Ok(()) => enum_check(*e, names_view(old(known)@)) is None && names_view(final(known)@)
                == names_view(old(known)@).push(trim(e.name@)),
            Err(err) => enum_check(*e, names_view(old(known)@)) == Some(err@),
        },
{
    let name = trimmed(e.name.as_str());
    if name.len() == 0 {
        return Err(SchemaError::EmptyName(NameKind::Enum));
    }
    let void = str_chars("void");
    if is_primitive(name.as_slice()) || chars_eq(name.as_slice(), void.as_slice()) {
        return Err(SchemaError::ReservedEnumName(string_of_chars(&name)));
    }
    if contains_chars(known, name.as_slice()) {
        return Err(SchemaError::DuplicateEnumName(string_of_chars(&name)));
    }
    if e.values.len() == 0 {
        return Err(SchemaError::NoEnumValues(string_of_chars(&name)));
    }
    match validate_values(&name, &e.values) {
        Err(err) => {
            return Err(err);
        },
        Ok(()) => {},
    }
    let ghost before = names_view(known@);
    known.push(name);
    proof {
        assert(names_view(known@) =~= before.push(trim(e.name@)));
    }
    Ok(())
}

/// Whether `s` is blank once trimmed.
fn is_blank(s: &str) -> (b: bool)
    ensures
        b == (trim(s@).len() == 0),
{
    trimmed(s).len() == 0
}

/// Checks a NUI contract: its version and resource are not blank; each enum
/// has a non-blank name, not a built-in one and not taken by an enum before
/// it, and at least one value, none blank or repeated once trimmed; each event
/// and endpoint has a non-blank name; every type is a primitive or a defined
/// enum (with optional trailing `?`), an array of exactly one item type, or
/// an object whose fields are valid types. The first fault found is returned.
#[verifier::loop_isolation(false)]
pub fn validate_schema(schema: &NuiSchema) -> (r: Result<(), SchemaError>)
    ensures
        match r {
            Ok(()) => schema_check(*schema) is None,
            Err(e) => schema_check(*schema) == Some(e@),
        },
{
    if is_blank(schema.version.as_str()) || is_blank(schema.resource.as_str()) {
        return Err(SchemaError::EmptyHeader);
    }
    let mut known: Vec<Vec<char>> = Vec::new();
    let mut i: usize = 0;
    while i < schema.enums.len()
        invariant
            i <= schema.enums@.len(),
            names_view(known@) == enum_names(schema.enums@.take(i as int)),
            enums_check(schema.enums@.take(i as int)) is None,
        decreases schema.enums.len() - i,
    {
        proof {
            assert(schema.enums@.take(i + 1).drop_last() =~= schema.enums@.take(i as int));
            assert(schema.enums@.take(i + 1).last() == schema.enums@[i as int]);
            assert(enum_names(schema.enums@.take(i + 1)) =~= enum_names(
                schema.enums@.take(i as int),
            ).push(trim(schema.enums@[i as int].name@)));
        }
        match validate_enum(&schema.enums[i], &mut known) {
            Err(e) => {
                proof {
                    lemma_enums_first_fault(schema.enums@, i + 1);
                }
                return Err(e);
            },
            Ok(()) => {},
        }
        i = i + 1;
    }
    proof {
        assert(schema.enums@.take(i as int) =~= schema.enums@);
    }
    let ghost names = enum_names(schema.enums@);
    let mut j: usize = 0;
    while j < schema.events.len()
        invariant
            j <= schema.events@.len(),
            names_view(known@) == names,
            events_check(schema.events@.take(j as int), names) is None,
        decreases schema.events.len() - j,
    {
        proof {
            assert(schema.events@.take(j + 1).drop_last() =~= schema.events@.take(j as int));
            assert(schema.events@.take(j + 1).last() == schema.events@[j as int]);
        }
        let ev = &schema.events[j];
        if is_blank(ev.name.as_str()) {
            proof {
                lemma_events_first_fault(schema.events@, names, j + 1);
            }
            return Err(SchemaError::EmptyName(NameKind::Event));
        }
        match validate_type(&ev.payload, &known) {
            Err(e) => {
                proof {
                    lemma_events_first_fault(schema.events@, names, j + 1);
                }
                return Err(e);
            },
            Ok(()) => {},
        }
        j = j + 1;
    }
    proof {
        assert(schema.events@.take(j as int) =~= schema.events@);
    }
    let mut k: usize = 0;
    while k < schema.endpoints.len()
        invariant
            k <= schema.endpoints@.len(),
            names_view(known@) == names,
            endpoints_check(schema.endpoints@.take(k as int), names) is None,
        decreases schema.endpoints.len() - k,
    {
        proof {
            assert(schema.endpoints@.take(k + 1).drop_last() =~= schema.endpoints@.take(k as int));
            assert(schema.endpoints@.take(k + 1).last() == schema.endpoints@[k as int]);
        }
        let ep = &schema.endpoints[k];
        if is_blank(ep.name.as_str()) {
            proof {
                lemma_endpoints_first_fault(schema.endpoints@, names, k + 1);
            }
            return Err(SchemaError::EmptyName(NameKind::Endpoint));
        }
        match &ep.request {
            Some(req) => {
                match validate_type(req, &known) {
                    Err(e) => {
                        proof {
                            lemma_endpoints_first_fault(schema.endpoints@, names, k + 1);
                        }
                        return Err(e);
                    },
                    Ok(()) => {},
                }
            },
            None => {},
        }
        match validate_type(&ep.response, &known) {
            Err(e) => {
                proof {
                    lemma_endpoints_first_fault(schema.endpoints@, names, k + 1);
                }
                return Err(e);
            },
            Ok(()) => {},
        }
        k = k + 1;
    }
    proof {
        assert(schema.endpoints@.take(k as int) =~= schema.endpoints@);
    }
    Ok(())
}

// ---------------------------------------------------------------------------
// What a valid contract guarantees
// ---------------------------------------------------------------------------

/// The values of an enum that passes are non-blank and distinct once trimmed.
pub proof fn lemma_valid_values(name: Seq<char>, vals: Seq<String>)
    requires
        values_check(name, vals) is None,
    ensures
        trimmed_values(vals).no_duplicates(),
        forall|j: int| 0 <= j < vals.len() ==> trim(#[trigger] vals[j]@).len() > 0,
    decreases vals.len(),
{
    if vals.len() > 0 {
        lemma_valid_values(name, vals.drop_last());
        let before = trimmed_values(vals.drop_last());
        assert(trimmed_values(vals) =~= before.push(trim(vals.last()@)));
        assert forall|j: int| 0 <= j < vals.len() implies trim(#[trigger] vals[j]@).len() > 0 by {
            if j < vals.len() - 1 {
                assert(vals[j] == vals.drop_last()[j]);
            }
        }
    }
}

/// The enums of a contract that passes have non-blank names, none of them a
/// built-in type name, no two alike once trimmed, and at least one value each.
pub proof fn lemma_valid_enums(enums: Seq<EnumDefinition>)
    requires
        enums_check(enums) is None,
    ensures
        enum_names(enums).no_duplicates(),
        forall|j: int|
            0 <= j < enums.len() ==> trim((#[trigger] enums[j]).name@).len() > 0
                && !is_reserved_name(trim(enums[j].name@)) && enums[j].values@.len() > 0,
    decreases enums.len(),
{
    if enums.len() > 0 {
        lemma_valid_enums(enums.drop_last());
        let before = enum_names(enums.drop_last());
        assert(enum_names(enums) =~= before.push(trim(enums.last().name@)));
        assert forall|j: int| 0 <= j < enums.len() implies trim((#[trigger] enums[j]).name@).len()
            > 0 && !is_reserved_name(trim(enums[j].name@)) && enums[j].values@.len() > 0 by {
            if j < enums.len() - 1 {
                assert(enums[j] == enums.drop_last()[j]);
            }
        }
    }
}

/// A contract that passes has a non-blank version and resource, and enums
/// as [`lemma_valid_enums`] describes.
pub proof fn lemma_valid_schema(s: NuiSchema)
    requires
        schema_check(s) is None,
    ensures
        trim(s.version@).len() > 0,
        trim(s.resource@).len() > 0,
        enum_names(s.enums@).no_duplicates(),
{
    lemma_valid_enums(s.enums@);
}

// ---------------------------------------------------------------------------
// Well-formed objects
// ---------------------------------------------------------------------------

/// `a` comes strictly before `b` in the order of `String`: character by
/// character, a proper prefix first.
pub open spec fn text_less(a: Seq<char>, b: Seq<char>) -> bool
    decreases a.len(),
{
    if a.len() == 0 {
        b.len() > 0
    } else if b.len() == 0 {
        false
    } else if a[0] != b[0] {
        (a[0] as u32) < (b[0] as u32)
    } else {
        text_less(a.drop_first(), b.drop_first())
    }
}

/// Each field name comes strictly before the next one.
pub open spec fn names_increasing(fields: Seq<FieldDefinition>) -> bool {
    forall|i: int|
        0 <= i < fields.len() - 1 ==> text_less(
            (#[trigger] fields[i]).name@,
            fields[i + 1].name@,
        )
}

/// A type whose objects, at every depth, have strictly increasing field
/// names: the form of a type read from a contract, whose objects are maps.
pub open spec fn type_well_formed(ty: TypeDefinition) -> bool
    decreases ty,
{
    match ty {
        TypeDefinition::Primitive(_) => true,
        TypeDefinition::Array(items) => types_well_formed(items@),
        TypeDefinition::Object(fields) => names_increasing(fields@) && fields_well_formed(fields@),
    }
}

/// Every type of `items` is well formed.
pub open spec fn types_well_formed(items: Seq<TypeDefinition>) -> bool
    decreases items,
{
    if items.len() == 0 {
        true
    } else {
        type_well_formed(items[0]) && types_well_formed(items.drop_first())
    }
}

/// The type of every field is well formed.
pub open spec fn fields_well_formed(fields: Seq<FieldDefinition>) -> bool
    decreases fields,
{
    if fields.len() == 0 {
        true
    } else {
        type_well_formed(fields[0].ty) && fields_well_formed(fields.drop_first())
    }
}

/// Every type of a contract is well formed.
pub open spec fn schema_well_formed(s: NuiSchema) -> bool {
    &&& forall|j: int| 0 <= j < s.events@.len() ==> type_well_formed((#[trigger] s.events@[j]).payload)
    &&& forall|j: int|
        0 <= j < s.endpoints@.len() ==> type_well_formed((#[trigger] s.endpoints@[j]).response)
            && (s.endpoints@[j].request matches Some(r) ==> type_well_formed(r))
}

/// Whether `a` comes strictly before `b`.
fn text_less_chars(a: &[char], b: &[char]) -> (r: bool)
    ensures
        r == text_less(a@, b@),
{
    let mut i: usize = 0;
    proof {
        assert(a@.skip(0) =~= a@);
        assert(b@.skip(0) =~= b@);
    }
    while i < a.len() && i < b.len() && a[i] == b[i]
        invariant
            i <= a@.len(),
            i <= b@.len(),
            text_less(a@, b@) == text_less(a@.skip(i as int), b@.skip(i as int)),
        decreases a.len() - i,
    {
        proof {
            assert(a@.skip(i as int).drop_first() =~= a@.skip(i + 1));
            assert(b@.skip(i as int).drop_first() =~= b@.skip(i + 1));
        }
        i = i + 1;
    }
    if i == a.len() {
        i < b.len()
    } else if i == b.len() {
        false
    } else {
        assert(a@.skip(i as int)[0] == a@[i as int]);
        assert(b@.skip(i as int)[0] == b@[i as int]);
        (a[i] as u32) < (b[i] as u32)
    }
}

/// Whether each field name comes strictly before the next one.
fn names_increasing_of(fields: &Vec<FieldDefinition>) -> (b: bool)
    ensures
        b == names_increasing(fields@),
{
    let mut i: usize = 0;
    while i < fields.len()
        invariant
            i <= fields@.len(),
            forall|k: int|
                0 <= k < i && k < fields@.len() - 1 ==> text_less(
                    (#[trigger] fields@[k]).name@,
                    fields@[k + 1].name@,
                ),
        decreases fields.len() - i,
    {
        if i + 1 < fields.len() {
            let a = str_chars(fields[i].name.as_str());
            let b = str_chars(fields[i + 1].name.as_str());
            if !text_less_chars(a.as_slice(), b.as_slice()) {
                return false;
            }
        }
        i = i + 1;
    }
    true
}

/// Whether a type is well formed.
fn type_is_well_formed(ty: &TypeDefinition) -> (b: bool)
    ensures
        b == type_well_formed(*ty),
    decreases ty,
{
    match ty {
        TypeDefinition::Primitive(_) => true,
        TypeDefinition::Array(items) => {
            let mut i: usize = 0;
            proof {
                assert(items@.skip(0) =~= items@);
            }
            while i < items.len()
                invariant
                    i <= items@.len(),
                    *ty == TypeDefinition::Array(*items),
                    types_well_formed(items@) == types_well_formed(items@.skip(i as int)),
                decreases items.len() - i,
            {
                proof {
                    assert(items@.skip(i as int)[0] == items@[i as int]);
                    assert(items@.skip(i as int).drop_first() =~= items@.skip(i + 1));
                }
                proof {
                    assert(decreases_to!(*ty => ty->Array_0));
                    assert(decreases_to!(ty->Array_0 => ty->Array_0@));
                    assert(decreases_to!(items@ => items@[i as int]));
                }
                if !type_is_well_formed(&items[i]) {
                    return false;
                }
                i = i + 1;
            }
            true
        },
        TypeDefinition::Object(fields) => {
            let mut i: usize = 0;
            proof {
                assert(fields@.skip(0) =~= fields@);
            }
            while i < fields.len()
                invariant
                    i <= fields@.len(),
                    *ty == TypeDefinition::Object(*fields),
                    fields_well_formed(fields@) == fields_well_formed(fields@.skip(i as int)),
                decreases fields.len() - i,
            {
                proof {
                    assert(fields@.skip(i as int)[0] == fields@[i as int]);
                    assert(fields@.skip(i as int).drop_first() =~= fields@.skip(i + 1));
                }
                proof {
                    assert(decreases_to!(*ty => ty->Object_0));
                    assert(decreases_to!(ty->Object_0 => ty->Object_0@));
                    assert(decreases_to!(fields@ => fields@[i as int]));
                    assert(decreases_to!(fields@[i as int] => fields@[i as int].ty));
                }
                if !type_is_well_formed(&fields[i].ty) {
                    return false;
                }
                i = i + 1;
            }
            names_increasing_of(fields)
        },
    }
}

impl TypeDefinition {
    /// Whether the type is well formed: its objects, at every depth, have
    /// strictly increasing field names.
    pub fn is_well_formed(&self) -> (b: bool)
        ensures
            b == type_well_formed(*self),
    {
        type_is_well_formed(self)
    }
}

impl NuiSchema {
    /// Whether every type of the contract is well formed.
    pub fn is_well_formed(&self) -> (b: bool)
        ensures
            b == schema_well_formed(*self),
    {
        let mut j: usize = 0;
        while j < self.events.len()
            invariant
                j <= self.events@.len(),
                forall|k: int| 0 <= k < j ==> type_well_formed((#[trigger] self.events@[k]).payload),
            decreases self.events.len() - j,
        {
            if !self.events[j].payload.is_well_formed() {
                return false;
            }
            j = j + 1;
        }
        let mut k: usize = 0;
        while k < self.endpoints.len()
            invariant
                k <= self.endpoints@.len(),
                forall|i: int| 0 <= i < self.events@.len() ==> type_well_formed(
                    (#[trigger] self.events@[i]).payload,
                ),
                forall|i: int|
                    0 <= i < k ==> type_well_formed((#[trigger] self.endpoints@[i]).response) && (
                    self.endpoints@[i].request matches Some(r) ==> type_well_formed(r)),
            decreases self.endpoints.len() - k,
        {
            let ep = &self.endpoints[k];
            if !ep.response.is_well_formed() {
                return false;
            }
            match &ep.request {
                Some(r) => {
                    if !r.is_well_formed() {
                        return false;
                    }
                },
                None => {},
            }
            k = k + 1;
        }
        true
    }
}

// ---------------------------------------------------------------------------
// When a contract passes
// ---------------------------------------------------------------------------

/// Value `k` of an enum is non-blank and differs, once trimmed, from the
/// trimmed values before it.
pub open spec fn value_ok(vals: Seq<String>, k: int) -> bool {
    trim(vals[k]@).len() > 0 && !trimmed_values(vals.take(k)).contains(trim(vals[k]@))
}

/// Enum `j` has a non-blank name, not a built-in type name and not the name
/// of an enum before it, and at least one value, all of them valid.
pub open spec fn enum_ok(enums: Seq<EnumDefinition>, j: int) -> bool {
    let name = trim(enums[j].name@);
    &&& name.len() > 0
    &&& !is_reserved_name(name)
    &&& !enum_names(enums.take(j)).contains(name)
    &&& enums[j].values@.len() > 0
    &&& forall|k: int| 0 <= k < enums[j].values@.len() ==> #[trigger] value_ok(enums[j].values@, k)
}

/// An event with a non-blank name and a valid payload.
pub open spec fn event_ok(e: EventDefinition, known: Seq<Seq<char>>) -> bool {
    trim(e.name@).len() > 0 && type_check(e.payload, known) is None
}

/// An endpoint with a non-blank name, a valid request if it has one, and a
/// valid response.
pub open spec fn endpoint_ok(e: EndpointDefinition, known: Seq<Seq<char>>) -> bool {
    &&& trim(e.name@).len() > 0
    &&& e.request matches Some(r) ==> type_check(r, known) is None
    &&& type_check(e.response, known) is None
}

/// A contract that passes: a non-blank version and resource, valid enums,
/// and events and endpoints valid against the enum names.
pub open spec fn schema_valid(s: NuiSchema) -> bool {
    let names = enum_names(s.enums@);
    &&& trim(s.version@).len() > 0
    &&& trim(s.resource@).len() > 0
    &&& forall|j: int| 0 <= j < s.enums@.len() ==> #[trigger] enum_ok(s.enums@, j)
    &&& forall|j: int| 0 <= j < s.events@.len() ==> event_ok(#[trigger] s.events@[j], names)
    &&& forall|j: int| 0 <= j < s.endpoints@.len() ==> endpoint_ok(#[trigger] s.endpoints@[j], names)
}

proof fn lemma_values_iff(name: Seq<char>, vals: Seq<String>)
    ensures
        values_check(name, vals) is None <==> forall|k: int|
            0 <= k < vals.len() ==> #[trigger] value_ok(vals, k),
    decreases vals.len(),
{
    if vals.len() > 0 {
        let d = vals.drop_last();
        lemma_values_iff(name, d);
        assert forall|k: int| 0 <= k < d.len() implies value_ok(d, k) == #[trigger] value_ok(
            vals,
            k,
        ) by {
            assert(d[k] == vals[k]);
            assert(d.take(k) =~= vals.take(k));
        }
        assert(vals.take(vals.len() - 1) =~= d);
        if values_check(name, vals) is None {
            assert forall|k: int| 0 <= k < vals.len() implies #[trigger] value_ok(vals, k) by {
                if k < d.len() {
                    assert(value_ok(d, k));
                }
            }
        }
        if forall|k: int| 0 <= k < vals.len() ==> #[trigger] value_ok(vals, k) {
            assert(value_ok(vals, vals.len() - 1));
            assert forall|k: int| 0 <= k < d.len() implies #[trigger] value_ok(d, k) by {
                assert(value_ok(vals, k));
            }
        }
    }
}

proof fn lemma_enum_check_iff(enums: Seq<EnumDefinition>, j: int)
    requires
        0 <= j < enums.len(),
    ensures
        enum_check(enums[j], enum_names(enums.take(j))) is None <==> enum_ok(enums, j),
{
    lemma_values_iff(trim(enums[j].name@), enums[j].values@);
}

proof fn lemma_enums_iff(enums: Seq<EnumDefinition>)
    ensures
        enums_check(enums) is None <==> forall|j: int| 0 <= j < enums.len() ==> #[trigger] enum_ok(enums, j),
    decreases enums.len(),
{
    if enums.len() > 0 {
        let d = enums.drop_last();
        lemma_enums_iff(d);
        assert forall|j: int| 0 <= j < d.len() implies enum_ok(d, j) == #[trigger] enum_ok(enums, j) by {
            assert(d[j] == enums[j]);
            assert(d.take(j) =~= enums.take(j));
        }
        assert(enums.take(enums.len() - 1) =~= d);
        lemma_enum_check_iff(enums, enums.len() - 1);
        if enums_check(enums) is None {
            assert forall|j: int| 0 <= j < enums.len() implies #[trigger] enum_ok(enums, j) by {
                if j < d.len() {
                    assert(enum_ok(d, j));
                }
            }
        }
        if forall|j: int| 0 <= j < enums.len() ==> #[trigger] enum_ok(enums, j) {
            assert(enum_ok(enums, enums.len() - 1));
            assert forall|j: int| 0 <= j < d.len() implies #[trigger] enum_ok(d, j) by {
                assert(enum_ok(enums, j));
            }
        }
    }
}

proof fn lemma_events_iff(events: Seq<EventDefinition>, known: Seq<Seq<char>>)
    ensures
        events_check(events, known) is None <==> forall|j: int|
            0 <= j < events.len() ==> event_ok(#[trigger] events[j], known),
    decreases events.len(),
{
    if events.len() > 0 {
        let d = events.drop_last();
        lemma_events_iff(d, known);
        if events_check(events, known) is None {
            assert forall|j: int| 0 <= j < events.len() implies event_ok(#[trigger] events[j], known) by {
                if j < d.len() {
                    assert(events[j] == d[j]);
                }
            }
        }
        if forall|j: int| 0 <= j < events.len() ==> event_ok(#[trigger] events[j], known) {
            assert(event_ok(events[events.len() - 1], known));
            assert forall|j: int| 0 <= j < d.len() implies event_ok(#[trigger] d[j], known) by {
                assert(events[j] == d[j]);
            }
        }
    }
}

proof fn lemma_endpoints_iff(endpoints: Seq<EndpointDefinition>, known: Seq<Seq<char>>)
    ensures
        endpoints_check(endpoints, known) is None <==> forall|j: int|
            0 <= j < endpoints.len() ==> endpoint_ok(#[trigger] endpoints[j], known),
    decreases endpoints.len(),
{
    if endpoints.len() > 0 {
        let d = endpoints.drop_last();
        lemma_endpoints_iff(d, known);
        if endpoints_check(endpoints, known) is None {
            assert forall|j: int|
                0 <= j < endpoints.len() implies endpoint_ok(#[trigger] endpoints[j], known) by {
                if j < d.len() {
                    assert(endpoints[j] == d[j]);
                }
            }
        }
        if forall|j: int| 0 <= j < endpoints.len() ==> endpoint_ok(#[trigger] endpoints[j], known) {
            assert(endpoint_ok(endpoints[endpoints.len() - 1], known));
            assert forall|j: int| 0 <= j < d.len() implies endpoint_ok(#[trigger] d[j], known) by {
                assert(endpoints[j] == d[j]);
            }
        }
    }
}

/// A contract passes validation exactly when it is valid as
/// [`schema_valid`] describes.
pub proof fn lemma_schema_check_iff(s: NuiSchema)
    ensures
        schema_check(s) is None <==> schema_valid(s),
{
    lemma_enums_iff(s.enums@);
    lemma_events_iff(s.events@, enum_names(s.enums@));
    lemma_endpoints_iff(s.endpoints@, enum_names(s.enums@));
}

/// An object type is valid exactly when the type of each of its fields is:
/// with the definition of `type_check`, a primitive is valid when its name,
/// without trailing `?`, is a built-in type or a defined enum, and an array
/// when it has exactly one item type and that type is valid.
pub proof fn lemma_fields_check_iff(fields: Seq<FieldDefinition>, known: Seq<Seq<char>>)
    ensures
        fields_check(fields, known) is None <==> forall|j: int|
            0 <= j < fields.len() ==> type_check((#[trigger] fields[j]).ty, known) is None,
    decreases fields.len(),
{
    if fields.len() > 0 {
        let d = fields.drop_first();
        lemma_fields_check_iff(d, known);
        if fields_check(fields, known) is None {
            assert forall|j: int| 0 <= j < fields.len() implies type_check(
                (#[trigger] fields[j]).ty,
                known,
            ) is None by {
                if j > 0 {
                    assert(fields[j] == d[j - 1]);
                }
            }
        }
        if forall|j: int| 0 <= j < fields.len() ==> type_check((#[trigger] fields[j]).ty, known) is None {
            assert(type_check(fields[0].ty, known) is None);
            assert forall|j: int| 0 <= j < d.len() implies type_check((#[trigger] d[j]).ty, known) is None by {
                assert(d[j] == fields[j + 1]);
            }
        }
    }
}

/// A valid type against the enum names `known`: a primitive whose name,
/// without its trailing `?` marks, is `string`, `number`, `boolean` or a
/// defined enum; an array with exactly one item type, which is valid; an
/// object whose field types are all valid.
pub open spec fn type_valid(ty: TypeDefinition, known: Seq<Seq<char>>) -> bool
    decreases ty,
{
    match ty {
        TypeDefinition::Primitive(v) => {
            let base = strip_optional(v@);
            is_primitive_name(base) || known.contains(base)
        },
        TypeDefinition::Array(items) => items@.len() == 1 && type_valid(items@[0], known),
        TypeDefinition::Object(fields) => fields_valid(fields@, known),
    }
}

/// The type of every field is valid against the enum names `known` (see
/// [`lemma_fields_valid_iff`]).
pub open spec fn fields_valid(fields: Seq<FieldDefinition>, known: Seq<Seq<char>>) -> bool
    decreases fields,
{
    if fields.len() == 0 {
        true
    } else {
        type_valid(fields[0].ty, known) && fields_valid(fields.drop_first(), known)
    }
}

/// The fields of an object are valid exactly when each field's type is.
pub proof fn lemma_fields_valid_iff(fields: Seq<FieldDefinition>, known: Seq<Seq<char>>)
    ensures
        fields_valid(fields, known) <==> forall|j: int|
            0 <= j < fields.len() ==> type_valid((#[trigger] fields[j]).ty, known),
    decreases fields.len(),
{
    if fields.len() > 0 {
        let d = fields.drop_first();
        lemma_fields_valid_iff(d, known);
        if fields_valid(fields, known) {
            assert forall|j: int| 0 <= j < fields.len() implies type_valid(
                (#[trigger] fields[j]).ty,
                known,
            ) by {
                if j > 0 {
                    assert(fields[j] == d[j - 1]);
                }
            }
        }
        if forall|j: int| 0 <= j < fields.len() ==> type_valid((#[trigger] fields[j]).ty, known) {
            assert(type_valid(fields[0].ty, known));
            assert forall|j: int| 0 <= j < d.len() implies type_valid((#[trigger] d[j]).ty, known) by {
                assert(d[j] == fields[j + 1]);
            }
        }
    }
}

/// The check of a type finds no fault exactly when the type is valid.
pub proof fn lemma_type_check_iff(ty: TypeDefinition, known: Seq<Seq<char>>)
    ensures
        type_check(ty, known) is None <==> type_valid(ty, known),
    decreases ty,
{
    match ty {
        TypeDefinition::Primitive(_) => {},
        TypeDefinition::Array(items) => {
            if items@.len() == 1 {
                lemma_type_check_iff(items@[0], known);
            }
        },
        TypeDefinition::Object(fields) => {
            lemma_fields_check_iff(fields@, known);
            lemma_fields_valid_iff(fields@, known);
            assert forall|j: int| 0 <= j < fields@.len() implies (type_check(
                (#[trigger] fields@[j]).ty,
                known,
            ) is None <==> type_valid(fields@[j].ty, known)) by {
                lemma_type_check_iff(fields@[j].ty, known);
            }
        },
    }
}

/// Validation of a contract succeeds exactly when its version and resource
/// are non-blank; every enum has a non-blank name (after trimming) that is
/// not `string`, `number`, `boolean` or `void` and not the name of an enum
/// before it, and at least one value, each non-blank and distinct from the
/// ones before it after trimming; every event and endpoint has a non-blank
/// name; and every event payload, endpoint request (where there is one) and
/// endpoint response is a valid type against the enum names.
pub proof fn lemma_schema_valid_types(s: NuiSchema)
    ensures
        schema_check(s) is None <==> {
            let names = enum_names(s.enums@);
            &&& trim(s.version@).len() > 0
            &&& trim(s.resource@).len() > 0
            &&& forall|j: int| 0 <= j < s.enums@.len() ==> #[trigger] enum_ok(s.enums@, j)
            &&& forall|j: int|
                0 <= j < s.events@.len() ==> trim((#[trigger] s.events@[j]).name@).len() > 0
                    && type_valid(s.events@[j].payload, names)
            &&& forall|j: int|
                0 <= j < s.endpoints@.len() ==> {
                    let e = #[trigger] s.endpoints@[j];
                    &&& trim(e.name@).len() > 0
                    &&& e.request matches Some(r) ==> type_valid(r, names)
                    &&& type_valid(e.response, names)
                }
        },
{
    lemma_schema_check_iff(s);
    let names = enum_names(s.enums@);
    assert forall|j: int| 0 <= j < s.events@.len() implies (event_ok(
        #[trigger] s.events@[j],
        names,
    ) <==> trim(s.events@[j].name@).len() > 0 && type_valid(s.events@[j].payload, names)) by {
        lemma_type_check_iff(s.events@[j].payload, names);
    }
    assert forall|j: int| 0 <= j < s.endpoints@.len() implies (endpoint_ok(
        #[trigger] s.endpoints@[j],
        names,
    ) <==> {
        let e = s.endpoints@[j];
        &&& trim(e.name@).len() > 0
        &&& e.request matches Some(r) ==> type_valid(r, names)
        &&& type_valid(e.response, names)
    }) by {
        let e = s.endpoints@[j];
        lemma_type_check_iff(e.response, names);
        if let Some(r) = e.request {
            lemma_type_check_iff(r, names);
        }
    }
}

/// The built-in type names: `string`, `number` and `boolean`.
pub open spec fn is_builtin_type(base: Seq<char>) -> bool {
    base == "string"@ || base == "number"@ || base == "boolean"@
}

/// A primitive type is accepted against any enum names when its name,
/// without trailing `?` marks, is `string`, `number` or `boolean`; any other
/// name that is not a defined enum is reported as unsupported.
pub proof fn lemma_primitive_types(v: String, known: Seq<Seq<char>>)
    ensures
        is_builtin_type(strip_optional(v@)) ==> type_check(TypeDefinition::Primitive(v), known)
            is None,
        !is_builtin_type(strip_optional(v@)) && !known.contains(strip_optional(v@)) ==> type_check(
            TypeDefinition::Primitive(v),
            known,
        ) == Some(SchemaErr::UnsupportedType(strip_optional(v@))),
{
}

/// A contract with a non-blank version and resource, no enums and no
/// endpoints, whose events have non-blank names and object payloads with
/// fields of built-in types only (`string`, `number`, `boolean`, each
/// possibly optional with `?`), passes validation.
pub proof fn lemma_builtin_fields_pass(s: NuiSchema)
    requires
        trim(s.version@).len() > 0,
        trim(s.resource@).len() > 0,
        s.enums@.len() == 0,
        s.endpoints@.len() == 0,
        forall|j: int|
            0 <= j < s.events@.len() ==> {
                let e = #[trigger] s.events@[j];
                &&& trim(e.name@).len() > 0
                &&& e.payload matches TypeDefinition::Object(fields)
                &&& forall|k: int|
                    0 <= k < fields@.len() ==> ((#[trigger] fields@[k]).ty matches TypeDefinition::Primitive(v)
                        && is_builtin_type(strip_optional(v@)))
            },
    ensures
        schema_check(s) is None,
{
    lemma_schema_valid_types(s);
    let names = enum_names(s.enums@);
    assert forall|j: int| 0 <= j < s.events@.len() implies trim(
        (#[trigger] s.events@[j]).name@,
    ).len() > 0 && type_valid(s.events@[j].payload, names) by {
        let e = s.events@[j];
        if let TypeDefinition::Object(fields) = e.payload {
            assert forall|k: int| 0 <= k < fields@.len() implies type_valid(
                (#[trigger] fields@[k]).ty,
                names,
            ) by {
                if let TypeDefinition::Primitive(v) = fields@[k].ty {
                    lemma_primitive_types(v, names);
                    lemma_type_check_iff(fields@[k].ty, names);
                }
            }
            lemma_fields_valid_iff(fields@, names);
        }
    }
}

/// An enum may not take a built-in type name, nor `void`: a contract with
/// such an enum fails validation.
pub proof fn lemma_reserved_enum_name_fails(s: NuiSchema, j: int)
    requires
        0 <= j < s.enums@.len(),
        is_builtin_type(trim(s.enums@[j].name@)) || trim(s.enums@[j].name@) == "void"@,
    ensures
        schema_check(s) is Some,
{
    lemma_schema_check_iff(s);
    if schema_check(s) is None {
        assert(enum_ok(s.enums@, j));
    }
}

} // verus!
