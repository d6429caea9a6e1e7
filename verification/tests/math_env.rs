use mdwright::math::span::{EnvKind, KnownEnv};

#[test]
fn known_from_name_round_trips() {
    for k in [
        KnownEnv::Align,
        KnownEnv::AlignStar,
        KnownEnv::Pmatrix,
        KnownEnv::Cases,
        KnownEnv::MultlineStar,
    ] {
        assert_eq!(KnownEnv::from_name(k.name()), Some(k));
    }
}

#[test]
fn unknown_name_returns_none() {
    assert_eq!(KnownEnv::from_name("tikzcd"), None);
    assert_eq!(KnownEnv::from_name("widget"), None);
}

#[test]
fn aligning_split() {
    assert!(KnownEnv::Align.is_aligning());
    assert!(KnownEnv::Pmatrix.is_aligning());
    assert!(KnownEnv::Cases.is_aligning());
    assert!(!KnownEnv::Equation.is_aligning());
    assert!(!KnownEnv::Gather.is_aligning());
    assert!(!KnownEnv::Multline.is_aligning());
}

#[test]
fn custom_is_never_aligning() {
    let env = EnvKind::Custom(0..6);
    assert!(!env.is_aligning());
}

#[test]
fn custom_name_resolves_from_source() {
    let s = "tikzcd";
    let env = EnvKind::Custom(0..6);
    assert_eq!(env.name(s), "tikzcd");
}
