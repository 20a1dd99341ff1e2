use prefix_cache::names::{auxiliary_file_name, cache_file_name, parse_tensor_name, tensor_name_of, token_list_text, TensorKind};

#[test]
fn tensor_names_use_the_persisted_format() {
    assert_eq!(tensor_name_of(TensorKind::Key, &[1, 2, 3]), "K:1;2;3");
    assert_eq!(tensor_name_of(TensorKind::Value, &[0, 4294967295]), "V:0;4294967295");
    assert_eq!(tensor_name_of(TensorKind::Key, &[]), "K:");
}

#[test]
fn token_text_joins_decimal_ids() {
    let text: String = token_list_text(&[10, 0, 907]).into_iter().collect();
    assert_eq!(text, "10;0;907");
}

#[test]
fn tensor_names_parse_back() {
    assert_eq!(parse_tensor_name("V:10;0"), Some((TensorKind::Value, vec![10, 0])));
    assert_eq!(parse_tensor_name("K:4294967295"), Some((TensorKind::Key, vec![4294967295])));
    assert_eq!(parse_tensor_name("K:"), Some((TensorKind::Key, vec![])));
    for toks in [vec![], vec![0], vec![1, 2, 3], vec![123456, 7, 0, 99]] {
        let name = tensor_name_of(TensorKind::Value, &toks);
        assert_eq!(parse_tensor_name(&name), Some((TensorKind::Value, toks)));
    }
}

#[test]
fn malformed_names_are_refused() {
    for bad in ["", "K", "K1", "X:1", "K:01", "K:1;", "K:;1", "K:1;;2", "K:4294967296", "K:1:2", "K: 1", "k:1"] {
        assert_eq!(parse_tensor_name(bad), None, "{bad}");
    }
}

#[test]
fn file_names_are_scoped_by_model() {
    assert_eq!(cache_file_name("prefix_cache.safetensors", "org/model"), "prefix_cache.safetensors.org/model");
    assert_eq!(
        auxiliary_file_name("prefix_cache.safetensors", "m"),
        "prefix_cache.safetensors.m.auxiliary"
    );
}
