use minix_fs::error::Error;
use minix_fs::file_transfer::{
    dir_reply, file_reply, image_reply, parse_request, put_file, put_reply_bytes,
    sized_reply_bytes, wants_image, Request,
};
use minix_fs::fs::minix_manager::MinixFs;

#[test]
fn parse_request_recognises_commands() {
    assert!(matches!(parse_request("exit"), Ok(Request::Exit)));
    assert!(matches!(parse_request(" exit"), Ok(Request::Invalid)));
    assert!(matches!(parse_request("dir"), Ok(Request::Dir)));
    assert!(matches!(parse_request("  dir  extra"), Ok(Request::Dir)));
    assert!(matches!(parse_request("get /a/b.txt"), Ok(Request::Get("/a/b.txt"))));
    assert!(matches!(parse_request("get"), Ok(Request::GetWithoutPath)));
    assert!(matches!(parse_request("put f.txt 12"), Ok(Request::Put("f.txt", 12))));
    assert!(matches!(parse_request("put f.txt"), Ok(Request::PutWithoutArgs)));
    assert!(matches!(parse_request("put"), Ok(Request::PutWithoutArgs)));
    assert!(matches!(parse_request("put f.txt twelve"), Err(Error::InvalidFileSize)));
    assert!(matches!(parse_request("list"), Ok(Request::Invalid)));
    assert!(matches!(parse_request(""), Ok(Request::Invalid)));
    assert!(matches!(parse_request("GET x"), Ok(Request::Invalid)));
}

#[test]
fn replies_have_their_wire_form() {
    assert_eq!(sized_reply_bytes(b"abc"), b"3\nabc".to_vec());
    assert_eq!(image_reply(None), b"-1\n".to_vec());
    assert_eq!(image_reply(Some(b"")), b"0\n".to_vec());
    assert_eq!(file_reply(Some(b"hello")), b"5\nhello".to_vec());
    assert_eq!(file_reply(Some(b"")), b"-1\n".to_vec());
    assert_eq!(file_reply(None), b"-1\n".to_vec());
    assert_eq!(dir_reply(Some(b"a\nb\n")), b"OK 4\na\nb\n".to_vec());
    assert_eq!(dir_reply(None), b"Err dir failed\n".to_vec());
    assert_eq!(put_reply_bytes(true), b"ok\n".to_vec());
    assert_eq!(put_reply_bytes(false), b"failed\n".to_vec());
}

#[test]
fn wants_image_only_for_the_image_path() {
    assert!(wants_image("/proc/fs.img"));
    assert!(!wants_image("/proc/fs.im"));
    assert!(!wants_image("proc/fs.img"));
}

#[test]
fn put_file_stores_upload_in_root() {
    let mut fs = MinixFs::init().unwrap();
    assert!(put_file(&mut fs, "/some/dir/up.txt", b"payload"));
    assert_eq!(fs.read(b"/up.txt").unwrap(), b"payload".to_vec());
    assert!(fs.lookup_iter(b"/some").is_err());
}
