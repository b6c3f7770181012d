use file_garden::{concat_path_and_query, get_queried_file_id, parse_file_route_path};

#[test]
fn concat_with_query_inserts_separator() {
    assert_eq!(concat_path_and_query("/x", Some("a=b")), "/x?a=b");
}

#[test]
fn concat_without_query_is_identity() {
    assert_eq!(concat_path_and_query("/x", None), "/x");
}

#[test]
fn concat_keeps_query_bytes_verbatim() {
    assert_eq!(concat_path_and_query("/a%20b", Some("k= &v=%zz")), "/a%20b?k= &v=%zz");
}

#[test]
fn parse_splits_at_second_slash() {
    assert_eq!(parse_file_route_path("/Alice/My%20File.txt"), ("Alice", "/My%20File.txt"));
    assert_eq!(parse_file_route_path("/a/b/c"), ("a", "/b/c"));
}

#[test]
fn parse_without_second_slash_yields_root() {
    assert_eq!(parse_file_route_path("/bob"), ("bob", "/"));
    assert_eq!(parse_file_route_path("/"), ("", "/"));
}

#[test]
fn parse_rejoins_to_original_path() {
    for path in ["/a/b/c", "/Alice/My%20File.txt", "/x"] {
        let (owner, resource_path) = parse_file_route_path(path);
        if resource_path == "/" && !path[1..].contains('/') {
            assert_eq!(format!("/{owner}"), path);
        } else {
            assert_eq!(format!("/{owner}{resource_path}"), path);
        }
    }
}

#[test]
fn file_id_absent_without_query() {
    assert_eq!(get_queried_file_id(None), None);
    assert_eq!(get_queried_file_id(Some("")), None);
}

#[test]
fn file_id_found_in_first_matching_segment() {
    assert_eq!(get_queried_file_id(Some("_id=x")), Some("x"));
    assert_eq!(get_queried_file_id(Some("a=b&_id=x&_id=y")), Some("x"));
    assert_eq!(get_queried_file_id(Some("x&_id=v=w")), Some("v=w"));
}

#[test]
fn file_id_key_must_match_exactly() {
    assert_eq!(get_queried_file_id(Some("aa_id=x")), None);
    assert_eq!(get_queried_file_id(Some("_idx=1")), None);
    assert_eq!(get_queried_file_id(Some("id=1")), None);
}

#[test]
fn file_id_value_may_be_empty() {
    assert_eq!(get_queried_file_id(Some("_id=")), Some(""));
    assert_eq!(get_queried_file_id(Some("_id=&x=y")), Some(""));
}
