use secure_storage_proto::{
    serialize_into, BufferTooSmallErr, CommandId, CommandMismatch, GetRequest, GetResponse, Key,
    ListRequest, ListResponse, PutRequest, Request, Response, StorageDomain, VersionRequest,
};

#[test]
fn command_ids_are_stable() {
    assert_eq!(CommandId::Put.as_u32(), 1);
    assert_eq!(CommandId::Get.as_u32(), 2);
    assert_eq!(CommandId::Version.as_u32(), 3);
    assert_eq!(CommandId::List.as_u32(), 4);
    assert_eq!(CommandId::try_from_u32(3), Ok(CommandId::Version));
    assert_eq!(CommandId::try_from_u32(0), Err(0));
    assert_eq!(CommandId::try_from_u32(5), Err(5));
}

#[test]
fn requests_know_their_command_and_ceiling() {
    let put = Request::Put(PutRequest { key: "k".to_owned(), val: vec![1, 2] });
    assert_eq!(put.id(), CommandId::Put);
    assert_eq!(put.max_response_size(), 1_048_576);
    let get = Request::Get(GetRequest { key: "k".to_owned() });
    assert_eq!(get.id(), CommandId::Get);
    assert_eq!(get.max_response_size(), 1_048_576);
    let version = Request::Version(VersionRequest);
    assert_eq!(version.id(), CommandId::Version);
    assert_eq!(version.max_response_size(), 1024);
    let list = Request::List(ListRequest { euid: Some(7), prefix: String::new() });
    assert_eq!(list.id(), CommandId::List);
    assert_eq!(list.max_response_size(), 1_048_576);
    assert_eq!(VersionRequest.max_response_size(), 1024);
    assert_eq!(ListRequest { euid: None, prefix: "p".to_owned() }.id(), CommandId::List);
}

#[test]
fn request_under_wrong_command_is_rejected() {
    let get = Request::Get(GetRequest { key: "k".to_owned() });
    assert!(get.for_command(2).is_ok());
    let get = Request::Get(GetRequest { key: "k".to_owned() });
    assert_eq!(
        get.for_command(1).unwrap_err(),
        CommandMismatch { received: 1, expected: CommandId::Get }
    );
}

#[test]
fn response_matches_its_request() {
    let get = Request::Get(GetRequest { key: "k".to_owned() });
    let resp = Response::Get(GetResponse { val: None });
    assert!(resp.answers(&get));
    assert!(!resp.answers(&Request::Version(VersionRequest)));
}

#[test]
fn serialize_fits_exactly() {
    let mut buf = [9u8; 4];
    assert_eq!(serialize_into(&[1, 2, 3, 4], &mut buf), Ok(4));
    assert_eq!(buf, [1, 2, 3, 4]);
}

#[test]
fn serialize_leaves_tail_alone() {
    let mut buf = [9u8; 6];
    assert_eq!(serialize_into(&[1, 2], &mut buf), Ok(2));
    assert_eq!(buf, [1, 2, 9, 9, 9, 9]);
    assert_eq!(serialize_into(&[], &mut buf), Ok(0));
}

#[test]
fn serialize_refuses_small_buffer() {
    let mut buf = [7u8; 3];
    assert_eq!(serialize_into(&[1, 2, 3, 4], &mut buf), Err(BufferTooSmallErr));
    assert_eq!(buf, [7, 7, 7]);
    let mut empty: [u8; 0] = [];
    assert_eq!(serialize_into(&[0], &mut empty), Err(BufferTooSmallErr));
}

fn key(euid: u32, user_key: &str) -> Key {
    Key { euid, user_key: user_key.to_owned() }
}

#[test]
fn list_keys_sorted_and_unique() {
    let found = vec![
        key(2, "b"),
        key(1, "z"),
        key(2, "a"),
        key(1, "z"),
        key(2, "ab"),
        key(0, ""),
        key(2, "a"),
    ];
    let resp = ListResponse::from_keys(found);
    assert_eq!(
        resp.keys(),
        &vec![key(0, ""), key(1, "z"), key(2, "a"), key(2, "ab"), key(2, "b")]
    );
    assert!(resp.contains(&key(2, "ab")));
    assert!(!resp.contains(&key(3, "ab")));
}

#[test]
fn list_of_nothing_is_empty() {
    let resp = ListResponse::from_keys(Vec::new());
    assert!(resp.keys().is_empty());
}

#[test]
fn list_order_matches_derived_order() {
    let found = vec![key(5, "é"), key(5, "e"), key(5, "z"), key(4, "zz"), key(5, "E")];
    let mut expected = found.clone();
    expected.sort();
    expected.dedup();
    let resp = ListResponse::from_keys(found);
    assert_eq!(resp.keys(), &expected);
}

#[test]
fn domain_identifier_is_uuid_shaped() {
    let id = StorageDomain::WifiProfiles.as_uuid();
    assert_eq!(id.len(), 36);
    assert!(secure_storage_proto::domain::is_uuid(id));
    assert!(!secure_storage_proto::domain::is_uuid("5b9e6a4c-7f0d-4c2e-9a61-3d8f2b0c7e1"));
    assert!(!secure_storage_proto::domain::is_uuid("5b9e6a4c_7f0d-4c2e-9a61-3d8f2b0c7e15"));
    assert!(!secure_storage_proto::domain::is_uuid("5b9e6a4c-7f0d-4c2e-9a61-3d8f2b0c7e1g"));
}
