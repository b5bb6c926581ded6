use hydration_client::conformance::{CloudOp, FetchBehaviour};
use hydration_client::reference::{percent_decode, upload_name, CloudState};

#[test]
fn an_upload_is_named_by_its_path() {
    assert_eq!(
        upload_name("/me/drive/items/root:/some%20name.txt:/content"),
        "some name.txt"
    );
    assert_eq!(upload_name("/me/drive/items/root:/plain.txt:/content"), "plain.txt");
    assert_eq!(upload_name("/me/drive/items/root/plain.txt"), "");
    assert_eq!(upload_name("/x:/a.txt/content/content"), "a.txt");
}

#[test]
fn escapes_are_decoded_and_the_rest_is_kept() {
    assert_eq!(percent_decode("a%2Fb%c3%a9"), "a/b\u{e9}");
    assert_eq!(percent_decode("100%"), "100%");
    assert_eq!(percent_decode("100%2"), "100%2");
    assert_eq!(percent_decode("%zz%41"), "%zzA");
    assert_eq!(percent_decode("%+f"), "\u{f}");
    assert_eq!(percent_decode("%ff"), "\u{fffd}");
    assert_eq!(percent_decode("h\u{e9}"), "h\u{e9}");
}

#[test]
fn a_listing_names_everything_and_links_onward() {
    let mut s = CloudState::new("http://127.0.0.1:1");
    s.seed("b.txt", &b"bb".to_vec(), "e2");
    s.seed("a.txt", &b"a".to_vec(), "e1");
    let (link, items) = s.delta();
    assert_eq!(link, "http://127.0.0.1:1/me/drive/items/root/delta?token=1");
    assert_eq!(items.len(), 2);
    assert_eq!(items[0].id, "cloud-1");
    assert_eq!(items[0].name, "b.txt");
    assert_eq!(items[0].etag, "e2");
    assert_eq!(items[0].ctag, "ce2");
    assert_eq!(items[0].size, 2);
    assert!(s.delta().0.ends_with("token=2"));
}

#[test]
fn downloads_answer_as_they_were_told_to() {
    let mut s = CloudState::new("");
    s.seed("a.txt", &b"hello".to_vec(), "e1");
    let path = "/me/drive/items/cloud-1/content";
    assert_eq!(s.content(path), Some(b"hello".to_vec()));
    assert_eq!(s.content("/me/drive/items/cloud-9/content"), None);
    assert_eq!(s.content("content"), None);
    s.fetch
        .insert("a.txt".into(), FetchBehaviour::Short { bytes: 2 });
    assert_eq!(s.content(path), Some(b"he".to_vec()));
    s.fetch
        .insert("a.txt".into(), FetchBehaviour::Short { bytes: 20 });
    assert_eq!(s.content(path), Some(b"hello".to_vec()));
    s.fetch
        .insert("a.txt".into(), FetchBehaviour::Stale { etag: "x".into() });
    assert_eq!(s.content(path), Some(b"!!!!!".to_vec()));
}

#[test]
fn an_upload_replaces_what_has_its_name() {
    let mut s = CloudState::new("");
    let path = "/me/drive/items/root:/a%20b.txt:/content";
    let first = s.upload(path, b"one".to_vec());
    assert_eq!(first.item.id, "cloud-1");
    assert_eq!(first.item.name, "a b.txt");
    assert_eq!(first.item.etag, "etag-2");
    assert!(!first.delayed);
    s.holding = true;
    let second = s.upload(path, b"two!".to_vec());
    assert_eq!(second.item.id, "cloud-1");
    assert_eq!(second.item.size, 4);
    assert!(second.delayed, "a held upload was answered at once");
    assert_eq!(s.by_name("a b.txt").unwrap().content, b"two!");
    assert!(s.upload_seen());
}

#[test]
fn a_rename_takes_the_name_out_of_the_body() {
    let mut s = CloudState::new("");
    s.seed("temp", &b"x".to_vec(), "e1");
    let path = "/me/drive/items/cloud-1";
    let item = s
        .patch(path, &b"{\"name\": \"real.txt\", \"n\": 1}".to_vec())
        .unwrap();
    assert_eq!(item.name, "real.txt");
    assert_eq!(
        s.ops[0],
        CloudOp::Rename {
            id: "cloud-1".into(),
            to: "real.txt".into()
        }
    );
    // A body without a name, or that is no JSON, changes nothing.
    assert_eq!(
        s.patch(path, &b"{\"name\": 5}".to_vec()).unwrap().name,
        "real.txt"
    );
    assert_eq!(s.patch(path, &b"nonsense".to_vec()).unwrap().name, "real.txt");
    assert_eq!(s.ops.len(), 1);
    assert!(s
        .patch("/me/drive/items/cloud-9", &b"{\"name\": \"x\"}".to_vec())
        .is_none());
}

#[test]
fn a_delete_is_on_record_even_where_nothing_was() {
    let mut s = CloudState::new("");
    s.seed("a", &Vec::new(), "e");
    s.delete("/me/drive/items/cloud-1");
    s.delete("/me/drive/items/cloud-1");
    assert_eq!(s.by_name("a"), None);
    assert_eq!(s.ops.len(), 2);
    assert!(!s.upload_seen());
}
