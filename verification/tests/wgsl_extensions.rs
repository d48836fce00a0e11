use lock_observing::enable_extension::{
    EnableExtension, EnableExtensions, ImplementedEnableExtension, Span,
    UnimplementedEnableExtension, UnknownEnableExtensionError,
};

#[test]
fn from_ident_maps_the_known_sentinel_words() {
    let span = Span { start: 0, end: 3 };
    assert_eq!(
        EnableExtension::from_ident("f16", span),
        Ok(EnableExtension::Unimplemented(UnimplementedEnableExtension::F16))
    );
    assert_eq!(
        EnableExtension::from_ident("clip_distances", span),
        Ok(EnableExtension::Unimplemented(UnimplementedEnableExtension::ClipDistances))
    );
    assert_eq!(
        EnableExtension::from_ident("dual_source_blending", span),
        Ok(EnableExtension::Unimplemented(UnimplementedEnableExtension::DualSourceBlending))
    );
}

#[test]
fn from_ident_rejects_unknown_words_with_their_span() {
    let span = Span { start: 7, end: 12 };
    assert_eq!(
        EnableExtension::from_ident("f32", span),
        Err(UnknownEnableExtensionError { span })
    );
    assert_eq!(
        EnableExtension::from_ident("", span),
        Err(UnknownEnableExtensionError { span })
    );
}

#[test]
fn to_ident_returns_the_sentinel_word() {
    assert_eq!(
        EnableExtension::Unimplemented(UnimplementedEnableExtension::F16).to_ident(),
        "f16"
    );
    assert_eq!(
        EnableExtension::Unimplemented(UnimplementedEnableExtension::ClipDistances).to_ident(),
        "clip_distances"
    );
    assert_eq!(
        EnableExtension::Unimplemented(UnimplementedEnableExtension::DualSourceBlending)
            .to_ident(),
        "dual_source_blending"
    );
}

#[test]
fn round_trip_through_idents() {
    let span = Span { start: 0, end: 0 };
    for ext in [
        UnimplementedEnableExtension::F16,
        UnimplementedEnableExtension::ClipDistances,
        UnimplementedEnableExtension::DualSourceBlending,
    ] {
        let word = EnableExtension::Unimplemented(ext).to_ident();
        assert_eq!(
            EnableExtension::from_ident(word, span),
            Ok(EnableExtension::Unimplemented(ext))
        );
    }
}

#[test]
fn extension_set_tracks_what_was_added() {
    let mut set = EnableExtensions::empty();
    assert!(!set.contains(ImplementedEnableExtension::DefinitelyNotStandard));
    set.add(ImplementedEnableExtension::DefinitelyNotStandard);
    assert!(set.contains(ImplementedEnableExtension::DefinitelyNotStandard));
    let default_set = EnableExtensions::default();
    assert!(!default_set.contains(ImplementedEnableExtension::DefinitelyNotStandard));
}

#[test]
fn tracking_issue_numbers_are_stable() {
    assert_eq!(UnimplementedEnableExtension::F16.tracking_issue_num(), 4384);
    assert_eq!(UnimplementedEnableExtension::ClipDistances.tracking_issue_num(), 6236);
    assert_eq!(UnimplementedEnableExtension::DualSourceBlending.tracking_issue_num(), 6402);
}
