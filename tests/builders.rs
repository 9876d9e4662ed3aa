use clips::{
    translate_put_slot_error, BuilderCache, CLIPSError, FactBuilderData, FactBuilderError,
    InstanceBuilderData, InstanceBuilderError, PutSlotError,
};

#[test]
fn slot_reports_translate() {
    assert!(translate_put_slot_error(PutSlotError::NoError).is_ok());
    let cases = [
        (PutSlotError::InvalidTarget, CLIPSError::FactOrInstanceRemoved),
        (PutSlotError::SlotNotFound, CLIPSError::SlotNotFound),
        (PutSlotError::Type, CLIPSError::SlotTypeViolated),
        (PutSlotError::Range, CLIPSError::SlotRangeViolated),
        (PutSlotError::AllowedValues, CLIPSError::SlotAllowedValuesViolated),
        (PutSlotError::Cardinality, CLIPSError::SlotCardinalityViolated),
        (PutSlotError::AllowedClasses, CLIPSError::SlotAllowedClassesViolated),
    ];
    for (code, err) in cases {
        assert_eq!(translate_put_slot_error(code), Err(err));
    }
}

#[test]
fn commit_outcomes() {
    let fb = FactBuilderData::new(7, "point".to_string());
    assert!(fb.commit(true, FactBuilderError::NoError).is_ok());
    assert_eq!(fb.commit(false, FactBuilderError::CouldNotAssert), Err(CLIPSError::UnableToAssertFact));
    assert_eq!(fb.commit(false, FactBuilderError::RuleNetwork), Err(CLIPSError::RuleNetwork));
    let ib = InstanceBuilderData::new(8, "POINT".to_string());
    assert!(ib.make(true, InstanceBuilderError::NoError).is_ok());
    assert_eq!(ib.make(false, InstanceBuilderError::CouldNotCreate), Err(CLIPSError::UnableToMakeInstance));
    assert_eq!(ib.make(false, InstanceBuilderError::RuleNetwork), Err(CLIPSError::RuleNetwork));
}

#[test]
fn builders_are_cached_per_template() {
    let mut cache = BuilderCache::new();
    assert_eq!(cache.get("point"), None);
    cache.insert("point".to_string(), 11);
    cache.insert("line".to_string(), 12);
    assert_eq!(cache.get("point"), Some(11));
    assert_eq!(cache.get("line"), Some(12));
    assert_eq!(cache.get("circle"), None);
    assert_eq!(cache.handles(), vec![11, 12]);
}
