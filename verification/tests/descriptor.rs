use rune_interpreter::descriptor::{
    define_array_index_property, define_own_property, to_property_descriptor, AccessorField, Attrs,
    CurrentProp, DefineError, DefineOutcome, DescFields, DescriptorError, Field, IndexOutcome,
    OverlayEntry, RawDescFields, SameValues, Store,
};

fn empty() -> DescFields {
    DescFields {
        has_value: false,
        has_writable: false,
        writable: false,
        has_get: false,
        has_set: false,
        has_enumerable: false,
        enumerable: false,
        has_configurable: false,
        configurable: false,
    }
}

fn absent() -> AccessorField {
    AccessorField { present: false, undefined: false, callable: false }
}

fn raw() -> RawDescFields {
    RawDescFields {
        has_enumerable: false,
        enumerable: false,
        has_configurable: false,
        configurable: false,
        has_value: false,
        has_writable: false,
        writable: false,
        get: absent(),
        set: absent(),
    }
}

const SAME: SameValues = SameValues { value: true, get: true, set: true };
const DIFF: SameValues = SameValues { value: false, get: false, set: false };

fn attrs(e: bool, c: bool, w: bool) -> Attrs {
    Attrs { enumerable: e, configurable: c, writable: w }
}

#[test]
fn test_descriptor_parse() {
    assert_eq!(to_property_descriptor(false, raw()), Err(DescriptorError::NotObject));
    let mut r = raw();
    r.get = AccessorField { present: true, undefined: false, callable: false };
    assert_eq!(to_property_descriptor(true, r), Err(DescriptorError::GetterNotCallable));
    // present but undefined counts as absent
    r.get = AccessorField { present: true, undefined: true, callable: false };
    let d = to_property_descriptor(true, r).unwrap();
    assert!(!d.has_get);
    let mut r = raw();
    r.set = AccessorField { present: true, undefined: false, callable: false };
    assert_eq!(to_property_descriptor(true, r), Err(DescriptorError::SetterNotCallable));
    let mut r = raw();
    r.has_value = true;
    r.get = AccessorField { present: true, undefined: false, callable: true };
    assert_eq!(to_property_descriptor(true, r), Err(DescriptorError::MixedFields));
    assert_eq!(
        DescriptorError::MixedFields.message(),
        "Invalid property descriptor: cannot mix data and accessor fields"
    );
    let mut r = raw();
    r.has_writable = true;
    r.writable = true;
    r.has_enumerable = true;
    let d = to_property_descriptor(true, r).unwrap();
    assert!(d.has_writable && d.writable && d.has_enumerable && !d.enumerable && !d.has_get);
}

#[test]
fn test_define_create() {
    let mut d = empty();
    d.has_value = true;
    d.has_writable = true;
    d.writable = true;
    assert_eq!(
        define_own_property(None, true, d, DIFF),
        Ok(DefineOutcome::Create { attrs: attrs(false, false, true), accessor: false })
    );
    let err = define_own_property(None, false, d, DIFF).unwrap_err();
    assert_eq!(err, DefineError::NotExtensible);
    assert_eq!(err.message(), "Cannot define property on a non-extensible object");
    let mut g = empty();
    g.has_get = true;
    g.has_writable = false;
    g.has_enumerable = true;
    g.enumerable = true;
    assert_eq!(
        define_own_property(None, true, g, DIFF),
        Ok(DefineOutcome::Create { attrs: attrs(true, false, false), accessor: true })
    );
}

#[test]
fn test_define_locked_refusals() {
    let frozen = CurrentProp { attrs: attrs(true, false, false), is_accessor: false };
    let mut d = empty();
    d.has_configurable = true;
    d.configurable = true;
    assert_eq!(define_own_property(Some(frozen), true, d, SAME), Err(DefineError::NonConfigurable));
    let mut d = empty();
    d.has_enumerable = true;
    d.enumerable = false;
    assert_eq!(define_own_property(Some(frozen), true, d, SAME), Err(DefineError::NonConfigurable));
    let mut d = empty();
    d.has_get = true;
    assert_eq!(define_own_property(Some(frozen), true, d, SAME), Err(DefineError::NonConfigurable));
    let mut d = empty();
    d.has_writable = true;
    d.writable = true;
    let err = define_own_property(Some(frozen), true, d, SAME).unwrap_err();
    assert_eq!(err, DefineError::MakeWritable);
    assert_eq!(err.message(), "Cannot make a non-writable property writable");
    let mut d = empty();
    d.has_value = true;
    let err = define_own_property(Some(frozen), true, d, DIFF).unwrap_err();
    assert_eq!(err, DefineError::NonWritableValue);
    assert_eq!(err.message(), "Cannot assign to a non-writable property");
    // the SameValue is accepted
    assert_eq!(
        define_own_property(Some(frozen), true, d, SAME),
        Ok(DefineOutcome::Update { attrs: frozen.attrs, store: Store::Value })
    );
    let locked_acc = CurrentProp { attrs: attrs(false, false, false), is_accessor: true };
    let mut d = empty();
    d.has_set = true;
    assert_eq!(define_own_property(Some(locked_acc), true, d, DIFF), Err(DefineError::NonConfigurable));
    assert_eq!(
        define_own_property(Some(locked_acc), true, d, SAME),
        Ok(DefineOutcome::Update {
            attrs: locked_acc.attrs,
            store: Store::Pair(Field::Current, Field::FromDescriptor)
        })
    );
}

#[test]
fn test_define_update_merges() {
    let open = CurrentProp { attrs: attrs(true, true, true), is_accessor: false };
    // empty descriptor keeps everything
    assert_eq!(
        define_own_property(Some(open), true, empty(), DIFF),
        Ok(DefineOutcome::Update { attrs: open.attrs, store: Store::Nothing })
    );
    // converting to an accessor keeps given flags only, never writable
    let mut d = empty();
    d.has_get = true;
    d.has_enumerable = true;
    d.enumerable = false;
    assert_eq!(
        define_own_property(Some(open), true, d, DIFF),
        Ok(DefineOutcome::Update {
            attrs: attrs(false, true, false),
            store: Store::Pair(Field::FromDescriptor, Field::Undefined)
        })
    );
    // a configurable accessor keeps its other half
    let acc = CurrentProp { attrs: attrs(false, true, false), is_accessor: true };
    let mut d = empty();
    d.has_set = true;
    assert_eq!(
        define_own_property(Some(acc), true, d, DIFF),
        Ok(DefineOutcome::Update { attrs: acc.attrs, store: Store::Pair(Field::Current, Field::FromDescriptor) })
    );
    // accessor to data starts unwritable unless given
    let mut d = empty();
    d.has_value = true;
    assert_eq!(
        define_own_property(Some(acc), true, d, DIFF),
        Ok(DefineOutcome::Update { attrs: attrs(false, true, false), store: Store::Value })
    );
    // a non-configurable writable data property may become unwritable
    let w = CurrentProp { attrs: attrs(true, false, true), is_accessor: false };
    let mut d = empty();
    d.has_writable = true;
    assert_eq!(
        define_own_property(Some(w), true, d, DIFF),
        Ok(DefineOutcome::Update { attrs: attrs(true, false, false), store: Store::Nothing })
    );
}

#[test]
fn test_define_array_index() {
    let mut g = empty();
    g.has_get = true;
    g.has_configurable = true;
    g.configurable = true;
    assert_eq!(
        define_array_index_property(None, g, DIFF),
        Ok(IndexOutcome::Accessor { attrs: attrs(false, true, false), get: Field::FromDescriptor, set: Field::Undefined })
    );
    let entry = OverlayEntry { enumerable: true, configurable: true, is_accessor: true };
    assert_eq!(
        define_array_index_property(Some(entry), g, DIFF),
        Ok(IndexOutcome::Accessor { attrs: attrs(false, true, false), get: Field::FromDescriptor, set: Field::Current })
    );
    // a descriptor with no fields on a configurable entry writes undefined
    // into the dense element and drops the entry
    assert_eq!(
        define_array_index_property(Some(entry), empty(), DIFF),
        Ok(IndexOutcome::Data { drop_overlay: true, from_descriptor: false })
    );
    let mut v = empty();
    v.has_value = true;
    assert_eq!(
        define_array_index_property(Some(entry), v, DIFF),
        Ok(IndexOutcome::Data { drop_overlay: true, from_descriptor: true })
    );
    assert_eq!(
        define_array_index_property(None, v, DIFF),
        Ok(IndexOutcome::Data { drop_overlay: false, from_descriptor: true })
    );
    let locked = OverlayEntry { enumerable: false, configurable: false, is_accessor: true };
    assert_eq!(define_array_index_property(Some(locked), v, SAME), Err(DefineError::NonConfigurable));
    assert_eq!(define_array_index_property(Some(locked), g, SAME), Err(DefineError::NonConfigurable));
    assert_eq!(
        define_array_index_property(Some(locked), empty(), DIFF),
        Ok(IndexOutcome::Accessor { attrs: attrs(false, false, false), get: Field::Current, set: Field::Current })
    );
    let locked_enum = OverlayEntry { enumerable: true, configurable: false, is_accessor: true };
    let mut only_get = empty();
    only_get.has_get = true;
    assert_eq!(
        define_array_index_property(Some(locked_enum), only_get, SAME),
        Ok(IndexOutcome::Accessor { attrs: attrs(true, false, false), get: Field::FromDescriptor, set: Field::Current })
    );
    let mut same_get = empty();
    same_get.has_get = true;
    assert_eq!(define_array_index_property(Some(locked), same_get, DIFF), Err(DefineError::NonConfigurable));
    assert_eq!(
        define_array_index_property(Some(locked), same_get, SAME),
        Ok(IndexOutcome::Accessor { attrs: attrs(false, false, false), get: Field::FromDescriptor, set: Field::Current })
    );
}
