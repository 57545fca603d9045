use serde_env::decode::{
    decode_u8, sequence_elements, DecodeError, EnumAccessor, MapAccessor, SeqAccessor,
    VariantAccessor,
};
use serde_env::tree::Node;

fn pairs(items: &[(&str, &str)]) -> Vec<(String, String)> {
    let mut v: Vec<(String, String)> = Vec::new();
    for (k, val) in items {
        v.push((k.to_string(), val.to_string()));
    }
    v
}

fn names(items: &[&str]) -> Vec<String> {
    let mut v: Vec<String> = Vec::new();
    for k in items {
        v.push(k.to_string());
    }
    v
}

#[test]
fn seq_accessor_hands_out_elements_in_order() {
    let elements = sequence_elements(&Node::new("1, 2, 3 ".to_string()));
    let mut acc = SeqAccessor::new(elements);
    let first = acc.next_element().expect("element");
    assert_eq!(first.value(), "1");
    assert!(!first.has_children());
    assert_eq!(acc.next_element().expect("element").value(), "2");
    assert_eq!(acc.next_element().expect("element").value(), "3");
    assert!(acc.next_element().is_none());
    assert!(acc.next_element().is_none());
}

#[test]
fn map_accessor_struct_fields_in_order() {
    let tree = Node::from_pairs(&pairs(&[("D_AA", "1.2"), ("D_BB", "hi")]));
    let d = tree.get("d").expect("embedded node").duplicate();
    let mut acc = MapAccessor::new(names(&["aa", "bb", "cc"]), d);
    let k1 = acc.next_key().expect("no violation").expect("field present");
    assert_eq!(k1, "aa".to_string());
    let v1 = acc.next_value().expect("value buffered");
    assert_eq!(v1.value(), "1.2");
    assert_eq!(v1.value().parse::<f32>().expect("float"), 1.2f32);
    let k2 = acc.next_key().expect("no violation").expect("field present");
    assert_eq!(k2, "bb".to_string());
    let v2 = acc.next_value().expect("value buffered");
    assert_eq!(v2.value(), "hi");
    // `cc` is not in the tree: it is skipped, not an error.
    assert!(acc.next_key().expect("no violation").is_none());
}

#[test]
fn map_accessor_value_before_key_is_contract_violation() {
    let tree = Node::from_pairs(&pairs(&[("A", "1")]));
    let mut acc = MapAccessor::new(names(&["a"]), tree);
    assert_eq!(
        acc.next_value().unwrap_err(),
        DecodeError::InternalContractViolation
    );
}

#[test]
fn map_accessor_key_with_unconsumed_value_is_contract_violation() {
    let tree = Node::from_pairs(&pairs(&[("A", "1"), ("B", "2")]));
    let mut acc = MapAccessor::new(names(&["a", "b"]), tree);
    assert_eq!(
        acc.next_key().expect("no violation"),
        Some("a".to_string())
    );
    assert_eq!(
        acc.next_key().unwrap_err(),
        DecodeError::InternalContractViolation
    );
}

#[test]
fn map_accessor_over_flattened_keys() {
    let tree = Node::from_pairs(&pairs(&[("METASRV_LOG_LEVEL", "DEBUG")]));
    let keys = tree.flatten("");
    let mut acc = MapAccessor::new(keys, tree);
    let key = acc.next_key().expect("no violation").expect("one entry");
    assert_eq!(key, "metasrv_log_level".to_string());
    let value = acc.next_value().expect("value buffered");
    assert_eq!(value.value(), "DEBUG");
    assert!(acc.next_key().expect("no violation").is_none());
}

#[test]
fn enum_newtype_variant_with_sibling_payload() {
    let tree = Node::from_pairs(&pairs(&[("FOO", "Y"), ("FOO_BAR", "xxx")]));
    let foo = tree.get("foo").expect("enum field").duplicate();
    let acc = EnumAccessor::new(names(&["X", "Y", "Z"]), foo);
    let (variant, payload) = acc.variant().expect("variant matches");
    assert_eq!(variant, "Y".to_string());
    let inner = payload.newtype_variant_node();
    let mut fields = MapAccessor::new(names(&["bar"]), inner);
    assert_eq!(
        fields.next_key().expect("no violation"),
        Some("bar".to_string())
    );
    assert_eq!(fields.next_value().expect("value").value(), "xxx");
}

#[test]
fn enum_unit_variant_requires_childless_node() {
    let tree = Node::from_pairs(&pairs(&[("FOO", "X")]));
    let foo = tree.get("foo").expect("enum field").duplicate();
    let acc = EnumAccessor::new(names(&["X", "Y", "Z"]), foo);
    let (variant, payload) = acc.variant().expect("variant matches");
    assert_eq!(variant, "X".to_string());
    assert!(payload.unit_variant().is_ok());

    let tree = Node::from_pairs(&pairs(&[("FOO", "X"), ("FOO_A", "1")]));
    let foo = tree.get("foo").expect("enum field").duplicate();
    let acc = EnumAccessor::new(names(&["X", "Y", "Z"]), foo);
    let (_, payload) = acc.variant().expect("variant matches");
    assert_eq!(
        payload.unit_variant().unwrap_err(),
        DecodeError::MalformedUnitVariant
    );
}

#[test]
fn enum_struct_variant_decodes_sibling_fields() {
    let tree = Node::from_pairs(&pairs(&[("FOO", "Z"), ("FOO_A", "1")]));
    let foo = tree.get("foo").expect("enum field").duplicate();
    let acc = EnumAccessor::new(names(&["X", "Y", "Z"]), foo);
    let (variant, payload) = acc.variant().expect("variant matches");
    assert_eq!(variant, "Z".to_string());
    let mut fields = payload.struct_variant(names(&["a"]));
    assert_eq!(
        fields.next_key().expect("no violation"),
        Some("a".to_string())
    );
    let value = fields.next_value().expect("value");
    assert_eq!(decode_u8(&value), Ok(1u8));
}

#[test]
fn enum_tuple_variant_is_unsupported() {
    let node = Node::new("Y".to_string());
    let payload = VariantAccessor::new(node);
    assert_eq!(
        payload.tuple_variant().unwrap_err(),
        DecodeError::UnsupportedShape
    );
}

#[test]
fn enum_unknown_variant() {
    let node = Node::new("Q".to_string());
    let acc = EnumAccessor::new(names(&["X", "Y", "Z"]), node);
    let err = acc.variant().unwrap_err();
    assert_eq!(
        err,
        DecodeError::UnknownVariant {
            value: "Q".to_string()
        }
    );
    assert_eq!(err.message(), "no variant `Q` found".to_string());
}

#[test]
fn optional_values_via_is_empty() {
    let tree = Node::from_pairs(&pairs(&[("INNER_VAL", "2"), ("SILENT", "")]));
    // A node with children but no value of its own is still "present".
    let inner = tree.get("inner").expect("inner node");
    assert!(!inner.is_empty());
    assert_eq!(decode_u8(tree.get("inner_val").expect("leaf")), Ok(2u8));
    // An empty value with no children is "absent".
    let silent = tree.get("silent").expect("key present");
    assert!(silent.is_empty());
}
