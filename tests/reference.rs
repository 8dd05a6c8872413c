use fsvalue::error::FsError;
use fsvalue::reference::{FsPath, FsReference, PathElement, ResourceId};
use std::cmp::Ordering;

#[test]
fn test_fs_path() {
    assert_eq!(
        FsPath::from_str("users/1").unwrap(),
        FsPath(vec![PathElement {
            collection_id: "users".to_string(),
            resource_id: Some(ResourceId::Number(1))
        }])
    );
    assert_eq!(
        FsPath::from_str("users/abc").unwrap(),
        FsPath(vec![PathElement {
            collection_id: "users".to_string(),
            resource_id: Some(ResourceId::String("abc".to_string()))
        }])
    );
    assert_eq!(
        FsPath::from_str("users/1/Posts/1").unwrap(),
        FsPath(vec![
            PathElement {
                collection_id: "users".to_string(),
                resource_id: Some(ResourceId::Number(1))
            },
            PathElement {
                collection_id: "Posts".to_string(),
                resource_id: Some(ResourceId::Number(1))
            }
        ])
    );
    assert_eq!(
        FsPath::from_str("users").unwrap(),
        FsPath(vec![PathElement {
            collection_id: "users".to_string(),
            resource_id: None
        }])
    );
}

#[test]
fn test_fs_reference() {
    assert_eq!(
        FsReference::from_str("/users/1").unwrap(),
        FsReference {
            path: FsPath(vec![PathElement {
                collection_id: "users".to_string(),
                resource_id: Some(ResourceId::Number(1))
            }])
        }
    );
    assert_eq!(
        FsReference::from_str("/users").unwrap(),
        FsReference {
            path: FsPath(vec![PathElement {
                collection_id: "users".to_string(),
                resource_id: None,
            }])
        }
    );
    assert_eq!(
        FsReference::from_str("/").unwrap(),
        FsReference {
            path: FsPath(vec![])
        }
    );
    assert!(FsReference::from_str("/").unwrap().is_root());
    assert_eq!(
        FsReference::from_str("/users").unwrap().has_complete_path(),
        false
    );
    assert_eq!(
        FsReference::from_str("/users/1")
            .unwrap()
            .has_complete_path(),
        true
    )
}

fn reference_of_path(text: &str) -> FsReference {
    FsReference { path: FsPath::from_str(text).unwrap() }
}

#[test]
fn path_text_round_trip() {
    assert_eq!(FsPath::from_str("users/1/posts/2").unwrap().to_text(), "users/1/posts/2");
    assert_eq!(FsPath::from_str("users/-7/posts").unwrap().to_text(), "users/-7/posts");
    assert_eq!(FsPath::from_str("users/007").unwrap().to_text(), "users/7");
    assert_eq!(FsPath::from_str("").unwrap().to_text(), "");
}

#[test]
fn completeness_and_root() {
    assert_eq!(reference_of_path("users").has_complete_path(), false);
    assert_eq!(reference_of_path("users/1").has_complete_path(), true);
    assert!(reference_of_path("").is_root());
    assert!(reference_of_path("").has_complete_path());
    assert!(!reference_of_path("users").is_root());
}

#[test]
fn odd_segment_counts_end_in_a_collection() {
    assert_eq!(
        FsPath::from_str("users/1/posts").unwrap(),
        FsPath(vec![
            PathElement { collection_id: "users".to_string(), resource_id: Some(ResourceId::Number(1)) },
            PathElement { collection_id: "posts".to_string(), resource_id: None },
        ])
    );
}

#[test]
fn resource_ids() {
    assert_eq!(ResourceId::from_str("42").unwrap(), ResourceId::Number(42));
    assert_eq!(ResourceId::from_str("+42").unwrap(), ResourceId::Number(42));
    assert_eq!(ResourceId::from_str("-9223372036854775808").unwrap(), ResourceId::Number(i64::MIN));
    assert_eq!(
        ResourceId::from_str("9223372036854775808").unwrap(),
        ResourceId::String("9223372036854775808".to_string())
    );
    assert_eq!(ResourceId::from_str("4x").unwrap(), ResourceId::String("4x".to_string()));
    assert_eq!(ResourceId::from_str("-").unwrap(), ResourceId::String("-".to_string()));
    assert_eq!(ResourceId::Number(-305).to_text(), "-305");
    assert_eq!(ResourceId::Number(i64::MIN).to_text(), "-9223372036854775808");
    assert_eq!(ResourceId::Number(0).to_text(), "0");
}

#[test]
fn reference_text() {
    assert_eq!(FsReference::from_str("/users/1/posts/2").unwrap().to_text(), "/users/1/posts/2");
    assert_eq!(FsReference::root().to_text(), "/");
}

#[test]
fn reference_rejects_other_characters() {
    for text in ["", "users/1", "/users/a.b", "/users/1 ", "x/users"] {
        assert!(matches!(FsReference::from_str(text), Err(FsError::InvalidValue(_))), "{}", text);
    }
}

#[test]
fn parent_and_collection_id() {
    let r = FsReference::from_str("/users/1/posts/2").unwrap();
    assert_eq!(r.parent(), FsReference::from_str("/users/1").unwrap());
    assert_eq!(r.collection_id(), "posts");
    let c = FsReference::from_str("/users/1/posts").unwrap();
    assert_eq!(c.parent(), FsReference::from_str("/users/1").unwrap());
    assert_eq!(c.collection_id(), "posts");
    assert_eq!(FsReference::root().parent(), FsReference::root());
    assert_eq!(FsReference::root().collection_id(), "");
}

#[test]
fn reference_order() {
    let a = FsReference::from_str("/users/1").unwrap();
    let b = FsReference::from_str("/users/2").unwrap();
    let s = FsReference::from_str("/users/abc").unwrap();
    let c = FsReference::from_str("/users").unwrap();
    assert_eq!(a.compare(&b), Ordering::Less);
    assert_eq!(b.compare(&s), Ordering::Less);
    assert_eq!(s.compare(&a), Ordering::Greater);
    assert_eq!(c.compare(&a), Ordering::Less);
    assert_eq!(a.compare(&a.clone()), Ordering::Equal);
    assert!(a.equals(&a.clone()));
    assert!(!a.equals(&b));
}

#[test]
fn unicode_letters_in_paths() {
    let r = FsReference::from_str("/usérs/josé/пост/7").unwrap();
    assert_eq!(r.to_text(), "/usérs/josé/пост/7");
    assert_eq!(r.collection_id(), "пост");
    assert!(matches!(FsReference::from_str("/users/jo sé"), Err(FsError::InvalidValue(_))));
}
