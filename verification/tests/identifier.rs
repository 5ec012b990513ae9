use fuid::base62::DecodeError;
use fuid::Fuid;
use std::str::FromStr;
use uuid::Uuid;

#[test]
fn test_fuid() {
    let a = "6fTiplVKIi6bJFe8rTXPcu";
    let b = "5z1JeaxqBJ4Y3pEXh2B8Sj";

    let fa = Fuid::with_str(a).unwrap();
    let fb = Fuid::with_str(b).unwrap();

    assert_eq!(fa.to_string(), a);
    assert_eq!(fb.to_string(), b);

    assert_ne!(Fuid::new(), fa);
    assert_ne!(Fuid::new(), fb);

    assert!(Fuid::with_str("ab!").is_err());

    let _ = Fuid::with_str("A").unwrap();
    let _ = Fuid::with_str(&"A".to_string()).unwrap();
}

#[test]
fn test_macro() {
    let a = Fuid::with_valid_str("A");
    assert_eq!(a.to_string(), "A");

    let b = Fuid::from(1u128);
    assert_eq!(b.as_u128(), 1);
}

#[test]
fn test_invalid_construction() {
    assert_eq!(
        Fuid::with_str("ab!").unwrap_err(),
        DecodeError::InvalidBase62Byte('!', 3)
    );
}

#[test]
fn test_random_distinctness() {
    let mut sample: Vec<Fuid> = Vec::new();
    for _ in 0..8 {
        sample.push(Fuid::new());
        sample.push(Fuid::default());
    }
    for i in 0..sample.len() {
        for j in 0..i {
            assert_ne!(sample[i], sample[j]);
        }
    }
}

#[test]
fn test_random_version_bits() {
    for _ in 0..8 {
        let bits = Fuid::new().as_u128();
        assert_eq!((bits >> 76) & 0xf, 4);
        assert_eq!((bits >> 62) & 0x3, 2);
    }
}

#[test]
fn test_int_round_trip() {
    let id = Fuid::with_u128(852751187393);
    assert_eq!(id.as_u128(), 852751187393);
    assert_eq!(Fuid::with_u128(id.as_u128()), id);
    let n: u128 = Fuid::from(10u128).into();
    assert_eq!(n, 10);
}

#[test]
fn test_uuid_interop() {
    let u = Uuid::from_u128(0x7b06fb9fcb594c6da38c028d27193acd);
    let f = Fuid::from_uuid(u);
    assert_eq!(f.as_u128(), 0x7b06fb9fcb594c6da38c028d27193acd);
    assert_eq!(f.to_uuid(), u);

    let id = Fuid::new();
    assert_eq!(Fuid::from_uuid(id.to_uuid()), id);

    let fuid = Fuid::with_str("3k9FL4LZe71geQdbOyCvz3").unwrap();
    let uuid = Uuid::from_str("7b06fb9f-cb59-4c6d-a38c-028d27193acd").unwrap();
    assert_eq!(Fuid::from_uuid(uuid), fuid);
    assert_eq!(fuid.to_uuid(), uuid);
}

#[test]
fn test_parse_matches_with_str() {
    let parsed: Fuid = "3k9FL4LZe71geQdbOyCvz3".parse().unwrap();
    assert_eq!(parsed, Fuid::with_str("3k9FL4LZe71geQdbOyCvz3").unwrap());
    assert!("ab!".parse::<Fuid>().is_err());
}

#[test]
fn test_string_round_trip() {
    let id = Fuid::new();
    let s = id.to_string();
    assert_eq!(Fuid::with_str(&s).unwrap(), id);
}
