use item_collection::connection::{endpoint, endpoint_of, ConnectError, UrlParts};
use item_collection::model_attribute::{is_empty_path, ItemCollection};

fn message(r: Result<Option<String>, ConnectError>) -> String {
    match r {
        Err(ConnectError::WrongScheme(message)) => message,
        other => panic!("{other:?}"),
    }
}

#[test]
fn endpoints_come_from_host_and_port() {
    assert_eq!(
        endpoint("dynamodb://localhost:8000").unwrap(),
        Some("http://localhost:8000".to_string())
    );
    assert_eq!(
        endpoint("dynamodb://db.example.com/path?x=1").unwrap(),
        Some("http://db.example.com".to_string())
    );
    assert_eq!(endpoint("dynamodb:").unwrap(), None);
    assert_eq!(
        endpoint("dynamodb://[::1]:80").unwrap(),
        Some("http://[::1]:80".to_string())
    );
}

#[test]
fn another_scheme_is_refused() {
    assert_eq!(
        message(endpoint("HTTP://localhost:8000")),
        "connection URL does not have a `dynamodb` scheme; url=http://localhost:8000/"
    );
}

#[test]
fn what_is_no_url_is_refused() {
    match endpoint("localhost") {
        Err(ConnectError::InvalidUrl(error)) => {
            assert_eq!(error, url::ParseError::RelativeUrlWithoutBase)
        }
        other => panic!("{other:?}"),
    }
}

#[test]
fn endpoints_are_made_of_url_parts() {
    let mut parts = UrlParts {
        scheme: "dynamodb".to_string(),
        host: Some("h".to_string()),
        port: Some(65535),
        text: "dynamodb://h:65535".to_string(),
    };
    assert_eq!(endpoint_of(&parts).unwrap(), Some("http://h:65535".to_string()));
    parts.port = None;
    assert_eq!(endpoint_of(&parts).unwrap(), Some("http://h".to_string()));
    parts.host = None;
    assert_eq!(endpoint_of(&parts).unwrap(), None);
    parts.scheme = "sqlite".to_string();
    assert_eq!(
        message(endpoint_of(&parts)),
        "connection URL does not have a `dynamodb` scheme; url=dynamodb://h:65535"
    );
}

fn attribute(text: &str) -> syn::Attribute {
    let input: syn::DeriveInput = syn::parse_str(text).unwrap();
    input.attrs.into_iter().next().unwrap()
}

#[test]
fn the_parent_model_is_read_from_the_attribute() {
    let attr = attribute("#[item_collection(models::User)] struct Todo;");
    let collection = ItemCollection::from_ast(&attr).unwrap();
    assert_eq!(collection.ty, syn::parse_str::<syn::Type>("models::User").unwrap());
}

#[test]
fn an_attribute_without_a_type_is_refused() {
    for text in [
        "#[item_collection] struct Todo;",
        "#[item_collection()] struct Todo;",
        "#[item_collection(User, Todo)] struct Todo;",
        "#[item_collection = \"User\"] struct Todo;",
    ] {
        assert!(ItemCollection::from_ast(&attribute(text)).is_err());
    }
}

#[test]
fn an_attribute_with_an_empty_path_is_not_read() {
    let mut attr = attribute("#[item_collection] struct Todo;");
    assert!(!is_empty_path(&attr));
    assert!(matches!(ItemCollection::try_from_ast(&attr), Some(Err(_))));
    attr.meta = syn::Meta::Path(syn::Path {
        leading_colon: None,
        segments: syn::punctuated::Punctuated::new(),
    });
    assert!(is_empty_path(&attr));
    assert!(ItemCollection::try_from_ast(&attr).is_none());

    // with arguments, an empty path is no obstacle
    let mut attr = attribute("#[item_collection(User)] struct Todo;");
    if let syn::Meta::List(list) = &mut attr.meta {
        list.path.segments = syn::punctuated::Punctuated::new();
    }
    assert!(!is_empty_path(&attr));
    let collection = ItemCollection::from_ast(&attr).unwrap();
    assert_eq!(collection.ty, syn::parse_str::<syn::Type>("User").unwrap());

    let attr = attribute("#[item_collection(User)] struct Todo;");
    let collection = ItemCollection::try_from_ast(&attr).unwrap().unwrap();
    assert_eq!(collection.ty, syn::parse_str::<syn::Type>("User").unwrap());
}
