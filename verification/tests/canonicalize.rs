use file_garden::{canonicalize, MalformedEncoding, Resolution};

fn resolved(owner: &str, resource_path: &str, override_id: Option<&str>) -> Resolution {
    Resolution::Resolved {
        owner: owner.to_string(),
        resource_path: resource_path.to_string(),
        override_id: override_id.map(|s| s.to_string()),
    }
}

#[test]
fn already_canonical_path_resolves() {
    let r = canonicalize("/Alice/My%20File.txt", None);
    assert_eq!(r, Ok(resolved("Alice", "/My%20File.txt", None)));
}

#[test]
fn raw_space_redirects_to_encoded_form() {
    let r = canonicalize("/Alice/My File.txt", None);
    assert_eq!(r, Ok(Resolution::Redirect("/Alice/My%20File.txt".to_string())));
}

#[test]
fn root_resource_with_file_id_query() {
    let r = canonicalize("/bob", Some("_id=abc123"));
    assert_eq!(r, Ok(resolved("bob", "/", Some("abc123"))));
}

#[test]
fn encoded_slash_redirects_to_literal_slash() {
    let r = canonicalize("/bob%2Fnotes", None);
    assert_eq!(r, Ok(Resolution::Redirect("/bob/notes".to_string())));
}

#[test]
fn invalid_escape_is_malformed() {
    assert_eq!(canonicalize("/%ZZ", None), Err(MalformedEncoding));
}

#[test]
fn truncated_escape_is_malformed() {
    assert_eq!(canonicalize("/%A", None), Err(MalformedEncoding));
    assert_eq!(canonicalize("/%", None), Err(MalformedEncoding));
}

#[test]
fn non_utf8_decoding_is_malformed() {
    assert_eq!(canonicalize("/%FF", None), Err(MalformedEncoding));
    assert_eq!(canonicalize("/%C3%28", None), Err(MalformedEncoding));
}

#[test]
fn canonical_form_is_a_fixed_point() {
    let first = canonicalize("/Alice/My File.txt", None).unwrap();
    let target = match first {
        Resolution::Redirect(t) => t,
        Resolution::Resolved { .. } => panic!("expected a redirect"),
    };
    let second = canonicalize(&target, None);
    assert_eq!(second, Ok(resolved("Alice", "/My%20File.txt", None)));
}

#[test]
fn equivalent_encodings_converge() {
    let a = canonicalize("/a%2fb", None);
    let b = canonicalize("/a%2Fb", None);
    let c = canonicalize("/a/b", None);
    assert_eq!(a, Ok(Resolution::Redirect("/a/b".to_string())));
    assert_eq!(a, b);
    assert_eq!(c, Ok(resolved("a", "/b", None)));
}

#[test]
fn literal_slashes_are_never_encoded() {
    let r = canonicalize("/a b/c d/e", None);
    assert_eq!(r, Ok(Resolution::Redirect("/a%20b/c%20d/e".to_string())));
    let r = canonicalize("/a/b/c", None);
    assert_eq!(r, Ok(resolved("a", "/b/c", None)));
}

#[test]
fn query_never_triggers_redirect_on_canonical_path() {
    for q in ["", "x=%zz", "_id=a%2Fb", "k=v&_id=abc", "%%%"] {
        let r = canonicalize("/bob/notes.txt", Some(q));
        assert!(matches!(r, Ok(Resolution::Resolved { .. })), "query {q:?} caused a non-resolution");
    }
}

#[test]
fn redirect_carries_query_unmodified() {
    let r = canonicalize("/a b", Some("k=v&x= y"));
    assert_eq!(r, Ok(Resolution::Redirect("/a%20b?k=v&x= y".to_string())));
}

#[test]
fn override_id_is_extracted_verbatim() {
    let r = canonicalize("/bob", Some("a=b&_id=a%2Fb&_id=second"));
    assert_eq!(r, Ok(resolved("bob", "/", Some("a%2Fb"))));
}

#[test]
fn unicode_path_redirects_to_percent_encoded_form() {
    let r = canonicalize("/caf\u{e9}", None);
    assert_eq!(r, Ok(Resolution::Redirect("/caf%C3%A9".to_string())));
    let r = canonicalize("/caf%C3%A9", None);
    assert_eq!(r, Ok(resolved("caf%C3%A9", "/", None)));
}

#[test]
fn allowed_characters_stay_literal() {
    let r = canonicalize("/-_.!~*'()", None);
    assert_eq!(r, Ok(resolved("-_.!~*'()", "/", None)));
}

#[test]
fn disallowed_ascii_is_encoded_uppercase() {
    let r = canonicalize("/a+b", None);
    assert_eq!(r, Ok(Resolution::Redirect("/a%2Bb".to_string())));
}

#[test]
fn needlessly_encoded_allowed_byte_redirects() {
    let r = canonicalize("/%41", None);
    assert_eq!(r, Ok(Resolution::Redirect("/A".to_string())));
}

#[test]
fn bare_root_path_resolves_to_empty_owner() {
    let r = canonicalize("/", None);
    assert_eq!(r, Ok(resolved("", "/", None)));
}
