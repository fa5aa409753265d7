use vault_ordbok::parser::VaultCommandParser;
use vault_ordbok::text::replace_all_str;
use vault_ordbok::vault::HttpMethod;
use vault_ordbok::vault::VaultClient;
use vault_ordbok::vault::doc_lookup;
use vault_ordbok::vault::resolve_document;
use vault_ordbok::vault::substitute;

fn dev_doc() -> Vec<(String, String)> {
    vec![(String::from("aws_key"), String::from("SECRET"))]
}

#[test]
fn test_replace_all_replaces_every_occurrence() {
    let replaced = replace_all_str("aXbXc", "X", "Y");
    assert_eq!(replaced, "aYbYc");

    let untouched = replace_all_str("abc", "X", "Y");
    assert_eq!(untouched, "abc");
}

#[test]
fn test_substitute_applies_pairs_in_order() {
    let pairs = vec![
        (String::from("{{ a }}"), String::from("1")),
        (String::from("{{ b }}"), String::from("2")),
    ];
    let out = substitute("x {{ a }} y {{ b }} z {{ a }}", &pairs);
    assert_eq!(out, "x 1 y 2 z 1");
}

#[test]
fn test_doc_lookup_returns_value_or_empty_string() {
    let doc = dev_doc();
    assert_eq!(doc_lookup(&doc, "aws_key"), "SECRET");
    assert_eq!(doc_lookup(&doc, "absent"), "");
}

#[test]
fn test_get_url_by_command_strips_slashes() {
    let data = "KEY_1: {{ lookup ('/data/storage/dev/', 'aws_key') }}";
    let commands = VaultCommandParser::new().parse(data);
    assert_eq!(commands.len(), 1);

    let client = VaultClient::new();
    let host = String::from("http://127.0.0.1:8200");
    let (method, url, key) = client.get_url_by_command(&commands[0], &host);

    assert!(matches!(method, HttpMethod::Get));
    assert_eq!(url, "http://127.0.0.1:8200/data/storage/dev");
    assert_eq!(key, "aws_key");
}

#[test]
fn test_client_caches_response_per_url() {
    let mut client = VaultClient::new();
    let url = String::from("http://127.0.0.1:8200/data/storage/dev");

    assert!(client.cached_doc(url.as_str()).is_none());
    client.store_response(url.clone(), dev_doc());
    let cached = client.cached_doc(url.as_str());
    assert!(cached.is_some());
    assert_eq!(doc_lookup(cached.unwrap(), "aws_key"), "SECRET");
    assert!(client.cached_doc("http://127.0.0.1:8200/other").is_none());
}

#[test]
fn test_resolve_document_end_to_end() {
    let data = "KEY_1: {{ lookup ('/data/storage/dev/', 'aws_key') }}";
    let store = vec![(
        String::from("http://127.0.0.1:8200/data/storage/dev"),
        Some(dev_doc()),
    )];

    let (out, fetches) = resolve_document(data, "http://127.0.0.1:8200/", &store);

    assert_eq!(out, "KEY_1: SECRET");
    assert_eq!(fetches, 1);
}

#[test]
fn test_resolve_document_shares_one_request_per_path() {
    let data = "A: {{ lookup ('/data/storage/dev', 'aws_key') }}\n\
                B: {{ lookup ('/data/storage/dev', 'other_key') }}";
    let store = vec![(
        String::from("http://h/data/storage/dev"),
        Some(vec![
            (String::from("aws_key"), String::from("SECRET")),
            (String::from("other_key"), String::from("SECOND")),
        ]),
    )];

    let (out, fetches) = resolve_document(data, "http://h", &store);

    assert_eq!(out, "A: SECRET\nB: SECOND");
    assert_eq!(fetches, 1);
}

#[test]
fn test_resolve_document_leaves_text_for_absent_key() {
    let data = "KEY_1: {{ lookup ('/data/storage/dev/', 'missing') }}";
    let store = vec![(
        String::from("http://h/data/storage/dev"),
        Some(dev_doc()),
    )];

    let (out, fetches) = resolve_document(data, "http://h", &store);

    assert_eq!(out, data);
    assert_eq!(fetches, 1);
}

#[test]
fn test_resolve_document_leaves_unknown_directive_untouched() {
    let data = "KEY: {{ foo('a','b') }}";
    let store: Vec<(String, Option<Vec<(String, String)>>)> = Vec::new();

    let (out, fetches) = resolve_document(data, "http://h", &store);

    assert_eq!(out, data);
    assert_eq!(fetches, 0);
}

#[test]
fn test_resolve_document_failed_response_is_not_cached() {
    let data = "A: {{ lookup ('/p', 'k1') }}\nB: {{ lookup ('/p', 'k2') }}";
    let store: Vec<(String, Option<Vec<(String, String)>>)> =
        vec![(String::from("http://h/p"), None)];

    let (out, fetches) = resolve_document(data, "http://h", &store);

    assert_eq!(out, data);
    assert_eq!(fetches, 2);
}
