use remote_midi::ident::ClientId;

const ID_A: &str = "aaaaaaaa-0000-4000-8000-000000000001";
const ID_B: &str = "bbbbbbbb-0000-4000-8000-000000000002";

#[test]
fn minted_id_has_canonical_shape() {
    let id = ClientId::mint();
    let text = id.as_text();
    assert_eq!(text.len(), 36);
    assert!(text.chars().all(|c| c.is_ascii_hexdigit() || c == '-'));
    assert!(ClientId::from_text(text.to_string()).is_some());
}

#[test]
fn minted_ids_differ() {
    let a = ClientId::mint();
    let b = ClientId::mint();
    assert_ne!(a.as_text(), b.as_text());
}

#[test]
fn from_text_accepts_canonical() {
    let id = ClientId::from_text(ID_A.to_string()).unwrap();
    assert_eq!(id.as_text(), ID_A);
}

#[test]
fn from_text_rejects_wrong_length() {
    assert!(ClientId::from_text("abc".to_string()).is_none());
}

#[test]
fn from_text_rejects_bad_characters() {
    assert!(ClientId::from_text("AAAAAAAA-0000-4000-8000-000000000001".to_string()).is_none());
    assert!(ClientId::from_text("aaaaaaaa|0000-4000-8000-000000000001".to_string()).is_none());
}

#[test]
fn matches_text_compares_exactly() {
    let id = ClientId::from_text(ID_A.to_string()).unwrap();
    assert!(id.matches_text(ID_A));
    assert!(!id.matches_text(ID_B));
    assert!(!id.matches_text(""));
}

#[test]
fn duplicate_spells_the_same() {
    let id = ClientId::from_text(ID_B.to_string()).unwrap();
    let copy = id.duplicate();
    assert_eq!(copy.as_text(), ID_B);
}
