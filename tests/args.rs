use f2::args::Args;
use f2::config::ExternalBytes;

#[test]
fn can_determine_filesystem_config() {
    let parsed = Args::from_config_value("f2.yaml").unwrap_or_else(|e| panic!("{e}"));

    let expected = ExternalBytes::Filesystem { path: String::from("f2.yaml") };

    assert_eq!(parsed.config_location, expected);
}

#[test]
fn can_determine_s3_config() {
    let parsed =
        Args::from_config_value("s3://some-bucket/some-key.yaml").unwrap_or_else(|e| panic!("{e}"));

    let expected = ExternalBytes::S3 {
        bucket: String::from("some-bucket"),
        key: String::from("some-key.yaml"),
    };

    assert_eq!(parsed.config_location, expected);
}

#[test]
fn s3_uri_without_bucket_or_key_will_fail_to_parse() {
    let Err(e) = Args::from_config_value("s3://") else {
        panic!("successfully parsed bucket");
    };

    assert_eq!(e.to_string(), "invalid s3 bucket and key provided: ");
}

#[test]
fn s3_uri_without_key_will_fail_to_parse() {
    let Err(e) = Args::from_config_value("s3://some-bucket") else {
        panic!("successfully parsed bucket");
    };

    assert_eq!(e.to_string(), "invalid s3 bucket and key provided: some-bucket");
}

#[test]
fn s3_key_keeps_later_slashes() {
    let parsed = Args::from_config_value("s3://b/dir/k.yaml").unwrap_or_else(|e| panic!("{e}"));
    let expected = ExternalBytes::S3 { bucket: String::from("b"), key: String::from("dir/k.yaml") };
    assert_eq!(parsed.config_location, expected);
}

#[test]
fn s3_uri_with_empty_key_or_bucket_will_fail_to_parse() {
    let Err(e) = Args::from_config_value("s3://b/") else {
        panic!("successfully parsed bucket");
    };
    assert_eq!(e, "invalid s3 bucket and key provided: b/");

    let Err(e) = Args::from_config_value("s3:///k") else {
        panic!("successfully parsed bucket");
    };
    assert_eq!(e, "invalid s3 bucket and key provided: /k");
}
