use std::str::FromStr;

use thorust::enums::{ExtType, ManifestKind};
use thorust::parser::ParserInfo;

#[test]
fn assert_parser_ext_serialization_should_pass() {
    assert_eq!(ExtType::from_str("yaml").unwrap(), ExtType::Yaml);
    assert_eq!(ExtType::from_str("json").unwrap(), ExtType::Json);
}

#[test]
fn assert_parser_ext_serialization_should_not_pass() {
    assert!(ExtType::from_str("YAML").is_err());
    assert!(ExtType::from_str("YaMl").is_err());
    assert!(ExtType::from_str("JSON").is_err());
    assert!(ExtType::from_str("JsOn").is_err());
}

#[test]
fn assert_parser_info_regex_success() {
    let parser_info = ParserInfo::new("foo/bar.scripts.yaml").unwrap();

    assert_eq!(parser_info.filename, "bar".to_string());
    assert_eq!(parser_info.parser, ManifestKind::Scripts);
    assert_eq!(parser_info.ext, ExtType::Yaml);
}

#[test]
fn assert_parser_info_regex_wrong_file_format() {
    assert!(ParserInfo::new("foo/bar.extra_separator_unallowed.scripts.yaml").is_err());
    assert!(ParserInfo::new("foo/bar.wrong_type.yaml").is_err());
    assert!(ParserInfo::new("foo/bar.scripts.wrong_extension").is_err());
}

#[test]
fn parser_kind_serialization() {
    assert_eq!(ManifestKind::from_str("scripts").unwrap(), ManifestKind::Scripts);
    assert_eq!(ManifestKind::from_str("grpc").unwrap(), ManifestKind::Grpc);
    assert!(ManifestKind::from_str("Scripts").is_err());
    assert!(ManifestKind::from_str("shell").is_err());
}

#[test]
fn parser_info_without_pattern_is_malformed() {
    assert!(ParserInfo::new("bar.yaml").is_err());
    assert!(ParserInfo::new("").is_err());
    assert!(ParserInfo::new("dir/trailing/").is_err());
}

#[test]
fn parser_info_grpc_json() {
    let parser_info = ParserInfo::new("some/dir/svc.grpc.json").unwrap();
    assert_eq!(parser_info.filename, "svc".to_string());
    assert_eq!(parser_info.parser, ManifestKind::Grpc);
    assert_eq!(parser_info.ext, ExtType::Json);
}
