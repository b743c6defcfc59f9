//! Property descriptors: parsing a descriptor object's fields, and the
//! decision of `[[DefineOwnProperty]]` (ValidateAndApplyPropertyDescriptor)
//! for ordinary objects and for the accessor overlay of dense arrays.
//!
//! Values themselves (a data property's value, a getter or setter) live on
//! the heap; the decisions here only need to know which fields a
//! descriptor has and whether its values are the SameValue as the current
//! ones, so those facts come in as booleans.
use vstd::prelude::*;

verus! {

/// The attribute flags of a property.
#[derive(Clone, Copy, Debug, PartialEq, Eq, Structural)]
pub struct Attrs {
    pub enumerable: bool,
    pub configurable: bool,
    pub writable: bool,
}

/// What an existing own property is: its flags, and whether it holds an
/// accessor pair rather than a value.
#[derive(Clone, Copy, Debug, PartialEq, Eq, Structural)]
pub struct CurrentProp {
    pub attrs: Attrs,
    pub is_accessor: bool,
}

/// The fields of a parsed property descriptor (its values aside).
#[derive(Clone, Copy, Debug, PartialEq, Eq, Structural)]
pub struct DescFields {
    pub has_value: bool,
    pub has_writable: bool,
    pub writable: bool,
    pub has_get: bool,
    pub has_set: bool,
    pub has_enumerable: bool,
    pub enumerable: bool,
    pub has_configurable: bool,
    pub configurable: bool,
}

/// Whether the descriptor's value, getter and setter are the SameValue as
/// the current property's.
#[derive(Clone, Copy, Debug, PartialEq, Eq, Structural)]
pub struct SameValues {
    pub value: bool,
    pub get: bool,
    pub set: bool,
}

/// The `get` or `set` field of a descriptor object as read.
#[derive(Clone, Copy, Debug, PartialEq, Eq, Structural)]
pub struct AccessorField {
    /// The field exists on the descriptor object.
    pub present: bool,
    /// Its value is `undefined`.
    pub undefined: bool,
    /// Its value is callable.
    pub callable: bool,
}

/// A descriptor object's fields as read, before validation. Boolean
/// fields are already converted with ToBoolean.
#[derive(Clone, Copy, Debug, PartialEq, Eq, Structural)]
pub struct RawDescFields {
    pub has_enumerable: bool,
    pub enumerable: bool,
    pub has_configurable: bool,
    pub configurable: bool,
    pub has_value: bool,
    pub has_writable: bool,
    pub writable: bool,
    pub get: AccessorField,
    pub set: AccessorField,
}

/// Why a descriptor object is refused (each a TypeError).
#[derive(Clone, Copy, Debug, PartialEq, Eq, Structural)]
pub enum DescriptorError {
    NotObject,
    GetterNotCallable,
    SetterNotCallable,
    MixedFields,
}

/// Why a definition is refused (each a TypeError).
#[derive(Clone, Copy, Debug, PartialEq, Eq, Structural)]
pub enum DefineError {
    NotExtensible,
    NonConfigurable,
    MakeWritable,
    NonWritableValue,
}

/// Where a field of a stored accessor pair comes from.
#[derive(Clone, Copy, Debug, PartialEq, Eq, Structural)]
pub enum Field {
    /// The descriptor's getter or setter.
    FromDescriptor,
    /// The current pair's getter or setter, kept.
    Current,
    /// `undefined`.
    Undefined,
}

/// What is stored into an existing property's slot.
#[derive(Clone, Copy, Debug, PartialEq, Eq, Structural)]
pub enum Store {
    /// The slot keeps what it holds.
    Nothing,
    /// The descriptor's value.
    Value,
    /// A new accessor pair.
    Pair(Field, Field),
}

/// What a successful definition on an ordinary object does.
#[derive(Clone, Copy, Debug, PartialEq, Eq, Structural)]
pub enum DefineOutcome {
    /// Add a new property with these flags: an accessor pair of the
    /// descriptor's getter and setter (`undefined` where absent) if
    /// `accessor`, else the descriptor's value (`undefined` if absent).
    Create { attrs: Attrs, accessor: bool },
    /// Give the existing property these flags and store into its slot.
    Update { attrs: Attrs, store: Store },
}

/// An accessor entry of a dense array's overlay, defined at an index.
#[derive(Clone, Copy, Debug, PartialEq, Eq, Structural)]
pub struct OverlayEntry {
    pub enumerable: bool,
    pub configurable: bool,
    pub is_accessor: bool,
}

/// What a successful definition at a dense-array index does.
#[derive(Clone, Copy, Debug, PartialEq, Eq, Structural)]
pub enum IndexOutcome {
    /// Store an accessor pair in the overlay with these flags and leave a
    /// hole in the dense element (extending the length past the end).
    Accessor { attrs: Attrs, get: Field, set: Field },
    /// Drop any overlay entry and write the dense element: the
    /// descriptor's value if `from_descriptor`, else `undefined`.
    Data { drop_overlay: bool, from_descriptor: bool },
}

/// The message of the TypeError a refused definition throws.
pub open spec fn define_error_message(e: DefineError) -> Seq<char> {
    match e {
        DefineError::NotExtensible => "Cannot define property on a non-extensible object"@,
        DefineError::NonConfigurable => "Cannot redefine a non-configurable property"@,
        DefineError::MakeWritable => "Cannot make a non-writable property writable"@,
        DefineError::NonWritableValue => "Cannot assign to a non-writable property"@,
    }
}

/// The message of the TypeError a refused descriptor object throws.
pub open spec fn descriptor_error_message(e: DescriptorError) -> Seq<char> {
    match e {
        DescriptorError::NotObject => "Property descriptor must be an object"@,
        DescriptorError::GetterNotCallable => "Getter must be a function"@,
        DescriptorError::SetterNotCallable => "Setter must be a function"@,
        DescriptorError::MixedFields => "Invalid property descriptor: cannot mix data and accessor fields"@,
    }
}

impl DefineError {
    /// The message of the TypeError this refusal throws.
    pub fn message(&self) -> (r: &'static str)
        ensures
            r@ == define_error_message(*self),
    {
        match self {
            DefineError::NotExtensible => "Cannot define property on a non-extensible object",
            DefineError::NonConfigurable => "Cannot redefine a non-configurable property",
            DefineError::MakeWritable => "Cannot make a non-writable property writable",
            DefineError::NonWritableValue => "Cannot assign to a non-writable property",
        }
    }
}

impl DescriptorError {
    /// The message of the TypeError this refusal throws.
    pub fn message(&self) -> (r: &'static str)
        ensures
            r@ == descriptor_error_message(*self),
    {
        match self {
            DescriptorError::NotObject => "Property descriptor must be an object",
            DescriptorError::GetterNotCallable => "Getter must be a function",
            DescriptorError::SetterNotCallable => "Setter must be a function",
            DescriptorError::MixedFields => "Invalid property descriptor: cannot mix data and accessor fields",
        }
    }
}

/// The descriptor is an accessor descriptor.
pub open spec fn is_accessor_desc(d: DescFields) -> bool {
    d.has_get || d.has_set
}

/// The descriptor has none of the value, writable, get, set fields.
pub open spec fn is_generic_desc(d: DescFields) -> bool {
    !d.has_value && !d.has_writable && !d.has_get && !d.has_set
}

/// A field given in the descriptor wins; otherwise `current` is kept.
pub open spec fn field_or(has: bool, given: bool, current: bool) -> bool {
    if has { given } else { current }
}

/// ToPropertyDescriptor: the fields of a descriptor object, or why it is
/// refused. A getter or setter present as `undefined` counts as absent.
pub open spec fn to_property_descriptor_spec(is_object: bool, raw: RawDescFields) -> Result<DescFields, DescriptorError> {
    let has_get = raw.get.present && !raw.get.undefined;
    let has_set = raw.set.present && !raw.set.undefined;
    if !is_object {
        Err(DescriptorError::NotObject)
    } else if has_get && !raw.get.callable {
        Err(DescriptorError::GetterNotCallable)
    } else if has_set && !raw.set.callable {
        Err(DescriptorError::SetterNotCallable)
    } else if (raw.has_value || raw.has_writable) && (has_get || has_set) {
        Err(DescriptorError::MixedFields)
    } else {
        Ok(
            DescFields {
                has_value: raw.has_value,
                has_writable: raw.has_writable,
                writable: raw.writable,
                has_get,
                has_set,
                has_enumerable: raw.has_enumerable,
                enumerable: raw.enumerable,
                has_configurable: raw.has_configurable,
                configurable: raw.configurable,
            },
        )
    }
}

/// The flags of a property created from `d`: absent flags are false, and
/// an accessor is never writable.
pub open spec fn created_attrs(d: DescFields) -> Attrs {
    Attrs {
        enumerable: d.has_enumerable && d.enumerable,
        configurable: d.has_configurable && d.configurable,
        writable: !is_accessor_desc(d) && d.has_writable && d.writable,
    }
}

/// Why redefining the non-configurable-or-not property `c` with `d` is
/// refused, checked in this order; `None` when it is allowed. Only a
/// non-configurable property refuses anything: it may not become
/// configurable, change enumerability, switch between data and accessor,
/// become writable again, or take a different value (when not writable),
/// getter or setter.
pub open spec fn refusal(c: CurrentProp, d: DescFields, same: SameValues) -> Option<DefineError> {
    let acc = is_accessor_desc(d);
    if c.attrs.configurable {
        None
    } else if d.has_configurable && d.configurable {
        Some(DefineError::NonConfigurable)
    } else if d.has_enumerable && d.enumerable != c.attrs.enumerable {
        Some(DefineError::NonConfigurable)
    } else if c.is_accessor != acc && !is_generic_desc(d) {
        Some(DefineError::NonConfigurable)
    } else if !c.is_accessor && !acc && !c.attrs.writable && d.has_writable && d.writable {
        Some(DefineError::MakeWritable)
    } else if !c.is_accessor && !acc && !c.attrs.writable && d.has_value && !same.value {
        Some(DefineError::NonWritableValue)
    } else if c.is_accessor && acc && d.has_get && !same.get {
        Some(DefineError::NonConfigurable)
    } else if c.is_accessor && acc && d.has_set && !same.set {
        Some(DefineError::NonConfigurable)
    } else {
        None
    }
}

/// The flags of `c` after an allowed redefinition with `d`. A configurable
/// property takes the given flags and keeps the others (a data result keeps
/// its writability when not given, a conversion from accessor starts
/// unwritable, an accessor result is never writable). A non-configurable
/// one changes only from writable to not writable.
pub open spec fn merged_attrs(c: CurrentProp, d: DescFields) -> Attrs {
    let acc = is_accessor_desc(d);
    if c.attrs.configurable {
        Attrs {
            enumerable: field_or(d.has_enumerable, d.enumerable, c.attrs.enumerable),
            configurable: field_or(d.has_configurable, d.configurable, c.attrs.configurable),
            writable: !acc && field_or(d.has_writable, d.writable, !c.is_accessor && c.attrs.writable),
        }
    } else if !c.is_accessor && !acc && c.attrs.writable && d.has_writable && !d.writable {
        Attrs { writable: false, ..c.attrs }
    } else {
        c.attrs
    }
}

/// Where one field of a stored pair comes from: the descriptor when it has
/// the field, else the current pair when `c` is an accessor, else
/// `undefined`.
pub open spec fn pair_field(has: bool, c: CurrentProp) -> Field {
    if has {
        Field::FromDescriptor
    } else if c.is_accessor {
        Field::Current
    } else {
        Field::Undefined
    }
}

/// What an allowed redefinition stores: a new pair for an accessor
/// descriptor, the value when one is given, else nothing.
pub open spec fn stored(c: CurrentProp, d: DescFields) -> Store {
    if is_accessor_desc(d) {
        Store::Pair(pair_field(d.has_get, c), pair_field(d.has_set, c))
    } else if d.has_value {
        Store::Value
    } else {
        Store::Nothing
    }
}

/// `[[DefineOwnProperty]]` on an ordinary object whose own property under
/// the key is `current` (if any).
pub open spec fn define_own_property_spec(
    current: Option<CurrentProp>,
    extensible: bool,
    d: DescFields,
    same: SameValues,
) -> Result<DefineOutcome, DefineError> {
    match current {
        None => if !extensible {
            Err(DefineError::NotExtensible)
        } else {
            Ok(DefineOutcome::Create { attrs: created_attrs(d), accessor: is_accessor_desc(d) })
        },
        Some(c) => match refusal(c, d, same) {
            Some(e) => Err(e),
            None => Ok(DefineOutcome::Update { attrs: merged_attrs(c, d), store: stored(c, d) }),
        },
    }
}

/// Definition at a dense-array index whose overlay holds `existing` (if
/// anything). A non-configurable overlay entry refuses becoming
/// configurable, a change of enumerability, any data field, and a
/// different getter or setter (validation as for ordinary properties), and
/// keeps its accessor and its flags under an accessor descriptor or one
/// with neither data nor accessor fields. Otherwise an accessor descriptor
/// stores a pair whose missing fields come from the existing pair (when
/// there is one) or are `undefined`, with exactly the flags it gives
/// (absent ones false); any other descriptor writes the dense element (its
/// value, or `undefined`) and drops the overlay entry.
pub open spec fn define_index_spec(
    existing: Option<OverlayEntry>,
    d: DescFields,
    same: SameValues,
) -> Result<IndexOutcome, DefineError> {
    let acc = is_accessor_desc(d);
    let locked = existing is Some && !existing->0.configurable;
    if locked && d.has_configurable && d.configurable {
        Err(DefineError::NonConfigurable)
    } else if locked && d.has_enumerable && d.enumerable != existing->0.enumerable {
        Err(DefineError::NonConfigurable)
    } else if locked && (d.has_value || d.has_writable) {
        Err(DefineError::NonConfigurable)
    } else if locked && acc && d.has_get && !same.get {
        Err(DefineError::NonConfigurable)
    } else if locked && acc && d.has_set && !same.set {
        Err(DefineError::NonConfigurable)
    } else if acc || (locked && existing->0.is_accessor && is_generic_desc(d)) {
        let keep = existing is Some && existing->0.is_accessor;
        Ok(
            IndexOutcome::Accessor {
                attrs: Attrs {
                    enumerable: if locked {
                        existing->0.enumerable
                    } else {
                        d.has_enumerable && d.enumerable
                    },
                    configurable: d.has_configurable && d.configurable,
                    writable: false,
                },
                get: if d.has_get { Field::FromDescriptor } else if keep { Field::Current } else { Field::Undefined },
                set: if d.has_set { Field::FromDescriptor } else if keep { Field::Current } else { Field::Undefined },
            },
        )
    } else {
        Ok(IndexOutcome::Data { drop_overlay: existing is Some, from_descriptor: d.has_value })
    }
}

/// A descriptor that is accepted never has both data fields (value,
/// writable) and accessor fields (get, set).
pub proof fn law_descriptor_not_mixed(is_object: bool, raw: RawDescFields)
    ensures
        to_property_descriptor_spec(is_object, raw) matches Ok(d) ==> !((d.has_value || d.has_writable) && (
        d.has_get || d.has_set)),
{
}

/// A property created on an extensible object gets exactly the flags the
/// descriptor gives, absent ones false; on a non-extensible object the
/// definition is refused.
pub proof fn law_create(extensible: bool, d: DescFields, same: SameValues)
    ensures
        extensible ==> define_own_property_spec(None, extensible, d, same) == Ok::<DefineOutcome, DefineError>(
            DefineOutcome::Create { attrs: created_attrs(d), accessor: is_accessor_desc(d) },
        ),
        !extensible ==> define_own_property_spec(None, extensible, d, same) == Err::<DefineOutcome, DefineError>(
            DefineError::NotExtensible,
        ),
        created_attrs(d).configurable == (d.has_configurable && d.configurable),
        created_attrs(d).enumerable == (d.has_enumerable && d.enumerable),
        created_attrs(d).writable == (!d.has_get && !d.has_set && d.has_writable && d.writable),
{
}

/// A non-configurable property stays non-configurable, keeps its
/// enumerability, and can only lose writability, never gain it.
pub proof fn law_locked_stays_locked(c: CurrentProp, extensible: bool, d: DescFields, same: SameValues)
    requires
        !c.attrs.configurable,
    ensures
        define_own_property_spec(Some(c), extensible, d, same) matches Ok(DefineOutcome::Update { attrs, store }) ==> {
            &&& !attrs.configurable
            &&& attrs.enumerable == c.attrs.enumerable
            &&& (attrs.writable ==> c.attrs.writable)
        },
{
}

/// The value of a non-configurable, non-writable data property never
/// changes: a definition either stores nothing or stores the SameValue,
/// and never turns it into an accessor.
pub proof fn law_frozen_value_kept(c: CurrentProp, extensible: bool, d: DescFields, same: SameValues)
    requires
        !c.attrs.configurable,
        !c.attrs.writable,
        !c.is_accessor,
    ensures
        define_own_property_spec(Some(c), extensible, d, same) matches Ok(DefineOutcome::Update { attrs, store }) ==> {
            &&& !attrs.writable
            &&& (store == Store::Nothing || (store == Store::Value && same.value))
        },
{
}

/// Defining an existing property with an empty descriptor succeeds and
/// changes nothing (for a property whose flags are consistent: an
/// accessor is not writable).
pub proof fn law_empty_descriptor_keeps(c: CurrentProp, extensible: bool, same: SameValues)
    requires
        c.is_accessor ==> !c.attrs.writable,
    ensures
        ({
            let d = DescFields {
                has_value: false,
                has_writable: false,
                writable: false,
                has_get: false,
                has_set: false,
                has_enumerable: false,
                enumerable: false,
                has_configurable: false,
                configurable: false,
            };
            define_own_property_spec(Some(c), extensible, d, same) == Ok::<DefineOutcome, DefineError>(
                DefineOutcome::Update { attrs: c.attrs, store: Store::Nothing },
            )
        }),
{
}

/// Redefining a data property with a complete descriptor of its own flags
/// and the SameValue succeeds, whatever its flags, and leaves the flags as
/// they were.
pub proof fn law_redefine_same_data(c: CurrentProp, extensible: bool, same: SameValues)
    requires
        !c.is_accessor,
        same.value,
    ensures
        ({
            let d = DescFields {
                has_value: true,
                has_writable: true,
                writable: c.attrs.writable,
                has_get: false,
                has_set: false,
                has_enumerable: true,
                enumerable: c.attrs.enumerable,
                has_configurable: true,
                configurable: c.attrs.configurable,
            };
            define_own_property_spec(Some(c), extensible, d, same) == Ok::<DefineOutcome, DefineError>(
                DefineOutcome::Update { attrs: c.attrs, store: Store::Value },
            )
        }),
{
}

/// A non-configurable accessor entry of the overlay stays a
/// non-configurable accessor with its own enumerability: data fields are
/// refused, and a descriptor with neither data nor accessor fields that
/// is accepted changes nothing (the same getter, setter and flags).
pub proof fn law_index_locked(e: OverlayEntry, d: DescFields, same: SameValues)
    requires
        !e.configurable,
        e.is_accessor,
    ensures
        define_index_spec(Some(e), d, same) matches Ok(out) ==> out matches IndexOutcome::Accessor {
            attrs,
            get,
            set,
        } && !attrs.configurable && attrs.enumerable == e.enumerable && !attrs.writable && (is_generic_desc(d)
            ==> get == Field::Current && set == Field::Current),
        (d.has_value || d.has_writable) ==> define_index_spec(Some(e), d, same) is Err,
{
}

/// A non-configurable accessor keeps its getter and setter: a definition
/// that succeeds either stores nothing or a pair each of whose fields is
/// the current one or the SameValue from the descriptor, never `undefined`.
pub proof fn law_locked_accessor_kept(c: CurrentProp, extensible: bool, d: DescFields, same: SameValues)
    requires
        !c.attrs.configurable,
        c.is_accessor,
    ensures
        define_own_property_spec(Some(c), extensible, d, same) matches Ok(DefineOutcome::Update { store, .. })
            ==> {
            ||| store == Store::Nothing
            ||| store matches Store::Pair(g, t) && g != Field::Undefined && t != Field::Undefined && (g
                == Field::FromDescriptor ==> same.get) && (t == Field::FromDescriptor ==> same.set)
        },
{
}

/// Redefining a configurable property always succeeds: each flag the
/// descriptor gives is taken and each it leaves out is kept; a data
/// property redefined with a data descriptor (or one with neither data nor
/// accessor fields) that has no `writable` field keeps its writability;
/// an accessor never is writable; and a given value is stored.
pub proof fn law_configurable_redefine(c: CurrentProp, extensible: bool, d: DescFields, same: SameValues)
    requires
        c.attrs.configurable,
    ensures
        define_own_property_spec(Some(c), extensible, d, same) matches Ok(DefineOutcome::Update { attrs, store })
            && {
            &&& attrs.enumerable == (if d.has_enumerable { d.enumerable } else { c.attrs.enumerable })
            &&& attrs.configurable == (if d.has_configurable { d.configurable } else { true })
            &&& (!c.is_accessor && !d.has_get && !d.has_set && !d.has_writable ==> attrs.writable
                == c.attrs.writable)
            &&& (!d.has_get && !d.has_set && d.has_writable ==> attrs.writable == d.writable)
            &&& (d.has_get || d.has_set ==> !attrs.writable)
            &&& (d.has_value && !d.has_get && !d.has_set ==> store == Store::Value)
        },
{
}

/// At a dense-array index with no overlay entry or one that is still
/// configurable, nothing is refused: an accessor descriptor stores a pair
/// with exactly the flags it gives (absent ones false), each of its
/// getter and setter taken from the descriptor when given, kept from an
/// existing pair otherwise, else `undefined`; any other descriptor writes
/// the dense element (its value when given) and drops the entry.
pub proof fn law_index_unlocked(existing: Option<OverlayEntry>, d: DescFields, same: SameValues)
    requires
        existing matches Some(e) ==> e.configurable,
    ensures
        (d.has_get || d.has_set) ==> {
            &&& define_index_spec(existing, d, same) matches Ok(IndexOutcome::Accessor { attrs, get, set })
            &&& attrs == (Attrs {
                enumerable: d.has_enumerable && d.enumerable,
                configurable: d.has_configurable && d.configurable,
                writable: false,
            })
            &&& get == (if d.has_get {
                Field::FromDescriptor
            } else if existing is Some && existing->0.is_accessor {
                Field::Current
            } else {
                Field::Undefined
            })
            &&& set == (if d.has_set {
                Field::FromDescriptor
            } else if existing is Some && existing->0.is_accessor {
                Field::Current
            } else {
                Field::Undefined
            })
        },
        !(d.has_get || d.has_set) ==> define_index_spec(existing, d, same) == Ok::<IndexOutcome, DefineError>(
            IndexOutcome::Data { drop_overlay: existing is Some, from_descriptor: d.has_value },
        ),
{
}

/// ToPropertyDescriptor on a descriptor object whose fields read as `raw`.
pub fn to_property_descriptor(is_object: bool, raw: RawDescFields) -> (r: Result<DescFields, DescriptorError>)
    ensures
        r == to_property_descriptor_spec(is_object, raw),
{
    if !is_object {
        return Err(DescriptorError::NotObject);
    }
    let mut d = DescFields {
        has_value: raw.has_value,
        has_writable: raw.has_writable,
        writable: raw.writable,
        has_get: false,
        has_set: false,
        has_enumerable: raw.has_enumerable,
        enumerable: raw.enumerable,
        has_configurable: raw.has_configurable,
        configurable: raw.configurable,
    };
    if raw.get.present && !raw.get.undefined {
        if raw.get.callable {
            d.has_get = true;
        } else {
            return Err(DescriptorError::GetterNotCallable);
        }
    }
    if raw.set.present && !raw.set.undefined {
        if raw.set.callable {
            d.has_set = true;
        } else {
            return Err(DescriptorError::SetterNotCallable);
        }
    }
    if (d.has_value || d.has_writable) && (d.has_get || d.has_set) {
        return Err(DescriptorError::MixedFields);
    }
    Ok(d)
}

/// `[[DefineOwnProperty]]` on an ordinary object: whether the definition
/// is refused, and if not what it creates or changes.
pub fn define_own_property(
    current: Option<CurrentProp>,
    extensible: bool,
    desc: DescFields,
    same: SameValues,
) -> (r: Result<DefineOutcome, DefineError>)
    ensures
        r == define_own_property_spec(current, extensible, desc, same),
{
    let is_accessor = desc.has_get || desc.has_set;
    match current {
        None => {
            if !extensible {
                return Err(DefineError::NotExtensible);
            }
            let attrs = Attrs {
                enumerable: desc.has_enumerable && desc.enumerable,
                configurable: desc.has_configurable && desc.configurable,
                writable: !is_accessor && desc.has_writable && desc.writable,
            };
            Ok(DefineOutcome::Create { attrs, accessor: is_accessor })
        },
        Some(cur) => {
            let ca = cur.attrs;
            if !ca.configurable {
                if desc.has_configurable && desc.configurable {
                    return Err(DefineError::NonConfigurable);
                }
                if desc.has_enumerable && desc.enumerable != ca.enumerable {
                    return Err(DefineError::NonConfigurable);
                }
                if cur.is_accessor != is_accessor && (desc.has_value || desc.has_writable
                    || desc.has_get || desc.has_set) {
                    return Err(DefineError::NonConfigurable);
                }
                if !cur.is_accessor && !is_accessor && !ca.writable {
                    if desc.has_writable && desc.writable {
                        return Err(DefineError::MakeWritable);
                    }
                    if desc.has_value && !same.value {
                        return Err(DefineError::NonWritableValue);
                    }
                }
                if cur.is_accessor && is_accessor {
                    if desc.has_get && !same.get {
                        return Err(DefineError::NonConfigurable);
                    }
                    if desc.has_set && !same.set {
                        return Err(DefineError::NonConfigurable);
                    }
                }
            }
            let attrs = if ca.configurable {
                let w = if desc.has_writable {
                    desc.writable
                } else if !cur.is_accessor {
                    ca.writable
                } else {
                    false
                };
                Attrs {
                    enumerable: if desc.has_enumerable { desc.enumerable } else { ca.enumerable },
                    configurable: if desc.has_configurable { desc.configurable } else { ca.configurable },
                    writable: !is_accessor && w,
                }
            } else if !cur.is_accessor && !is_accessor && ca.writable && desc.has_writable
                && !desc.writable {
                Attrs { enumerable: ca.enumerable, configurable: ca.configurable, writable: false }
            } else {
                ca
            };
            let store = if is_accessor {
                let keep = cur.is_accessor;
                let get = if desc.has_get {
                    Field::FromDescriptor
                } else if keep {
                    Field::Current
                } else {
                    Field::Undefined
                };
                let set = if desc.has_set {
                    Field::FromDescriptor
                } else if keep {
                    Field::Current
                } else {
                    Field::Undefined
                };
                Store::Pair(get, set)
            } else if desc.has_value {
                Store::Value
            } else {
                Store::Nothing
            };
            Ok(DefineOutcome::Update { attrs, store })
        },
    }
}

/// `Object.defineProperty` at a dense-array index: whether the definition
/// is refused, and if not whether it stores an accessor in the overlay or
/// writes the dense element.
pub fn define_array_index_property(
    existing: Option<OverlayEntry>,
    desc: DescFields,
    same: SameValues,
) -> (r: Result<IndexOutcome, DefineError>)
    ensures
        r == define_index_spec(existing, desc, same),
{
    let is_accessor = desc.has_get || desc.has_set;
    if let Some(e) = existing {
        if !e.configurable {
            if desc.has_configurable && desc.configurable {
                return Err(DefineError::NonConfigurable);
            }
            if desc.has_enumerable && desc.enumerable != e.enumerable {
                return Err(DefineError::NonConfigurable);
            }
            if desc.has_value || desc.has_writable {
                return Err(DefineError::NonConfigurable);
            }
            if is_accessor {
                if desc.has_get && !same.get {
                    return Err(DefineError::NonConfigurable);
                }
                if desc.has_set && !same.set {
                    return Err(DefineError::NonConfigurable);
                }
            }
        }
    }
    let (keep, locked, cur_e) = match existing {
        Some(e) => (e.is_accessor, !e.configurable, e.enumerable),
        None => (false, false, false),
    };
    let generic = !desc.has_value && !desc.has_writable && !desc.has_get && !desc.has_set;
    if is_accessor || (locked && keep && generic) {
        let get = if desc.has_get {
            Field::FromDescriptor
        } else if keep {
            Field::Current
        } else {
            Field::Undefined
        };
        let set = if desc.has_set {
            Field::FromDescriptor
        } else if keep {
            Field::Current
        } else {
            Field::Undefined
        };
        let attrs = Attrs {
            enumerable: if locked { cur_e } else { desc.has_enumerable && desc.enumerable },
            configurable: desc.has_configurable && desc.configurable,
            writable: false,
        };
        Ok(IndexOutcome::Accessor { attrs, get, set })
    } else {
        Ok(IndexOutcome::Data { drop_overlay: existing.is_some(), from_descriptor: desc.has_value })
    }
}

} // verus!
