use base64::Engine;
use rsa::{Pkcs1v15Encrypt, RsaPrivateKey, RsaPublicKey};

use f2::common::{Container, EncryptedEnvironment};
use f2::config::Service;
use f2::secrets::{decrypt_content, parse_private_key, plaintext_of, unseal_value, SecretError};
use rsa::pkcs8::EncodePrivateKey;

fn generate_keys() -> (RsaPublicKey, RsaPrivateKey) {
    let mut rng = rand::thread_rng();
    let private_key = RsaPrivateKey::new(&mut rng, 512).expect("key");
    let public_key = RsaPublicKey::from(&private_key);
    (public_key, private_key)
}

fn encrypt_and_encode_value(value: &str, public_key: &RsaPublicKey) -> String {
    let mut rng = rand::thread_rng();
    let encrypted = public_key.encrypt(&mut rng, Pkcs1v15Encrypt, value.as_bytes()).expect("encrypt");
    base64::engine::general_purpose::STANDARD.encode(encrypted)
}

fn value_of<'a>(variables: &'a [(String, String)], key: &str) -> &'a str {
    variables.iter().find(|(k, _)| k == key).map(|(_, v)| v.as_str()).expect("Failed to get a value for the key")
}

#[test]
fn environments_can_be_decrypted() {
    let (public, private) = generate_keys();

    let plaintext = "foobar";
    let encoded = encrypt_and_encode_value(plaintext, &public);

    let variables = vec![(String::from("key"), format!("secret:{encoded}"))];
    let encrypted_environment = EncryptedEnvironment { variables };

    let decrypted = encrypted_environment.decrypt(Some(&private)).expect("decrypt");
    assert_eq!(value_of(&decrypted.variables, "key"), plaintext);
}

#[test]
fn unencrypted_keys_are_left_alone() {
    let variables = vec![(String::from("key"), String::from("value"))];
    let encrypted_environment = EncryptedEnvironment { variables };

    let decrypted = encrypted_environment.decrypt(None).expect("decrypt");
    assert_eq!(value_of(&decrypted.variables, "key"), "value");
}

#[test]
fn decryption_errors_if_secrets_exist_without_private_key() {
    let (public, _) = generate_keys();
    let encoded = encrypt_and_encode_value("foobar", &public);

    let variables = vec![(String::from("key"), format!("secret:{encoded}"))];
    let encrypted_environment = EncryptedEnvironment { variables };

    let decrypted = encrypted_environment.decrypt(None);
    assert!(matches!(decrypted, Err(SecretError::NoKey)));
}

#[test]
fn decryption_failures_return_an_error() {
    let (public, _) = generate_keys();
    let (_, unrelated_private) = generate_keys();
    let encoded = encrypt_and_encode_value("foobar", &public);

    let variables = vec![(String::from("key"), format!("secret:{encoded}"))];
    let encrypted_environment = EncryptedEnvironment { variables };

    let decrypted = encrypted_environment.decrypt(Some(&unrelated_private));
    assert!(decrypted.is_err());
}

#[test]
fn sealed_value_round_trips() {
    let (public, private) = generate_keys();
    let encoded = encrypt_and_encode_value("hunter2", &public);
    let opened = unseal_value(&format!("secret:{encoded}"), Some(&private)).expect("unseal");
    assert_eq!(opened, "hunter2");
}

#[test]
fn invalid_base64_is_a_decryption_error() {
    let (_, private) = generate_keys();
    assert_eq!(unseal_value("secret:%%%", Some(&private)), Err(SecretError::Decrypt));
    assert_eq!(unseal_value("plain", Some(&private)), Ok("plain".to_string()));
}

#[test]
fn non_utf8_plaintext_is_refused() {
    assert_eq!(plaintext_of(Ok(vec![0xff, 0xfe])), Err(SecretError::BadUtf8));
    assert_eq!(plaintext_of(Ok(b"ok".to_vec())), Ok("ok".to_string()));
}

#[test]
fn blob_markers_are_replaced() {
    let (public, private) = generate_keys();
    let encoded = encrypt_and_encode_value("pw", &public);
    let content = format!("user=admin\npass={{{{ {encoded} }}}}\n");
    let opened = decrypt_content(content.as_bytes(), Some(&private)).expect("unseal");
    assert_eq!(opened, b"user=admin\npass=pw\n".to_vec());
}

#[test]
fn blob_without_markers_is_unchanged() {
    let (_, private) = generate_keys();
    let content = b"plain text { not a } marker".to_vec();
    assert_eq!(decrypt_content(&content, Some(&private)), Ok(content.clone()));
    assert_eq!(decrypt_content(&content, None), Ok(content));
}

#[test]
fn non_utf8_blob_needs_no_key_to_pass() {
    let (_, private) = generate_keys();
    let content = vec![0xff, 0x00, 0x7b];
    assert_eq!(decrypt_content(&content, None), Ok(content.clone()));
    assert_eq!(decrypt_content(&content, Some(&private)), Err(SecretError::BadUtf8));
}

#[test]
fn container_environment_comes_from_service() {
    let service = Service {
        image: "nginx".to_string(),
        environment: vec![("A".to_string(), "1".to_string())],
        ..Default::default()
    };
    let container = Container::from_service(&service);
    assert_eq!(container.image, "nginx");
    let env = container.decrypt_environment(None).expect("plain").expect("some");
    assert_eq!(env.variables, vec![("A".to_string(), "1".to_string())]);
}

#[test]
fn private_keys_are_read_from_pkcs8_pem() {
    let (public, private) = generate_keys();
    let pem = private.to_pkcs8_pem(rsa::pkcs8::LineEnding::LF).expect("pem");
    let parsed = parse_private_key(pem.as_bytes()).expect("parse");

    let encoded = encrypt_and_encode_value("abc", &public);
    assert_eq!(unseal_value(&format!("secret:{encoded}"), Some(&parsed)), Ok("abc".to_string()));
}

#[test]
fn unreadable_private_keys_are_refused() {
    assert!(matches!(parse_private_key(b"not a key"), Err(SecretError::InvalidKey)));
    assert!(matches!(parse_private_key(&[0xff, 0xfe]), Err(SecretError::BadUtf8)));
}

#[test]
fn blob_secrets_need_a_key() {
    let content = b"pass={{ abc }}".to_vec();
    assert_eq!(decrypt_content(&content, None), Err(SecretError::NoKey));
    let unterminated = b"pass={{ abc".to_vec();
    assert_eq!(decrypt_content(&unterminated, None), Ok(unterminated.clone()));
}

#[test]
fn environment_values_open_to_their_plaintexts() {
    let (public, private) = generate_keys();
    let variables = vec![
        ("A".to_string(), format!("secret:{}", encrypt_and_encode_value("one", &public))),
        ("B".to_string(), "plain".to_string()),
    ];
    let opened = EncryptedEnvironment { variables }.decrypt(Some(&private)).expect("open");
    assert_eq!(
        opened.variables,
        vec![("A".to_string(), "one".to_string()), ("B".to_string(), "plain".to_string())]
    );
}
