use wallet_service::descriptor::WalletDescriptor;
use wallet_service::errors::WalletError;

fn roundtrip(pool: &str, xtype: &str, name: &str) {
    let d = WalletDescriptor::new(pool, xtype, name);
    let encoded = d.encode();
    let back = WalletDescriptor::decode(encoded.as_str()).unwrap();
    assert_eq!(back.pool_name, pool);
    assert_eq!(back.xtype, xtype);
    assert_eq!(back.name, name);
}

#[test]
fn descriptor_new_keeps_fields() {
    let d = WalletDescriptor::new("pool1", "default", "wallet1");
    assert_eq!(d.pool_name, "pool1");
    assert_eq!(d.xtype, "default");
    assert_eq!(d.name, "wallet1");
}

#[test]
fn encode_exact_value() {
    let d = WalletDescriptor::new("p", "default", "w");
    assert_eq!(d.encode(), "#:p#######:default#:w");
}

#[test]
fn encode_empty_fields_exact_value() {
    let d = WalletDescriptor::new("", "", "");
    assert_eq!(d.encode(), ":::");
}

#[test]
fn roundtrip_plain() {
    roundtrip("sovrin", "default", "my_wallet");
}

#[test]
fn roundtrip_empty_fields() {
    roundtrip("", "", "");
    roundtrip("", "default", "");
    roundtrip("pool", "", "name");
}

#[test]
fn roundtrip_unicode() {
    roundtrip("бассейн", "тип", "кошелёк");
    roundtrip("池", "種類✨", "財布🙂");
}

#[test]
fn roundtrip_fields_holding_the_format_characters() {
    roundtrip("#:#", "::::", "###");
    roundtrip("#:p#######:default#:w", "#", ":");
}

#[test]
fn decode_rejects_garbage() {
    for bad in ["", "hello", "#:", "##:ab", "#:a#:b", "#:a#:b#:c extra", "::"] {
        match WalletDescriptor::decode(bad) {
            Err(WalletError::Corrupted(_)) => {},
            other => panic!("expected Corrupted for {:?}, got Ok={}", bad, other.is_ok()),
        }
    }
}

#[test]
fn decode_rejects_truncated_encoding() {
    let d = WalletDescriptor::new("pool", "default", "wallet");
    let encoded = d.encode();
    let truncated: String = encoded.chars().take(encoded.chars().count() - 1).collect();
    assert!(matches!(
        WalletDescriptor::decode(truncated.as_str()),
        Err(WalletError::Corrupted(_))
    ));
}
