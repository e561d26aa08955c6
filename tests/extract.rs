use modtide::extract::ExtractPng;
use modtide::patch::bytes_check;

const SIG: [u8; 8] = [137, 80, 78, 71, 13, 10, 26, 10];

fn chunk(kind: &[u8; 4], data: &[u8]) -> Vec<u8> {
    let mut out = (data.len() as u32).to_be_bytes().to_vec();
    out.extend_from_slice(kind);
    out.extend_from_slice(data);
    out.extend_from_slice(&[0, 0, 0, 0]);
    out
}

fn png(name: Option<&str>) -> Vec<u8> {
    let mut out = SIG.to_vec();
    out.extend(chunk(b"IHDR", &[1, 2, 3]));
    if let Some(name) = name {
        let mut text = b"File Name\0".to_vec();
        text.extend_from_slice(name.as_bytes());
        out.extend(chunk(b"tEXt", &text));
    }
    out.extend(chunk(b"IEND", &[]));
    out
}

#[test]
fn extracts_images_in_order() {
    let first = png(Some("button_toggle.png"));
    let second = png(None);
    let mut buffer = b"junk".to_vec();
    buffer.extend_from_slice(&first);
    buffer.extend_from_slice(b"more junk");
    buffer.extend_from_slice(&second);

    let mut it = ExtractPng::new(&buffer);
    let a = it.next().unwrap();
    assert_eq!(a.buffer, &first[..]);
    assert_eq!(a.file_name, Some("button_toggle.png"));
    assert_eq!(a.index, 0);
    let b = it.next().unwrap();
    assert_eq!(b.buffer, &second[..]);
    assert_eq!(b.file_name, None);
    assert_eq!(b.index, 1);
    assert!(it.next().is_none());
    assert!(it.next().is_none());
}

#[test]
fn truncated_image_is_not_returned() {
    let mut image = png(None);
    image.truncate(image.len() - 6);
    let mut it = ExtractPng::new(&image);
    assert!(it.next().is_none());
}

#[test]
fn finds_first_match() {
    assert_eq!(bytes_check(b"abcabc", b"bc"), Some(1));
    assert_eq!(bytes_check(b"abcabc", b"abc"), Some(0));
    assert_eq!(bytes_check(b"abcabc", b"cb"), None);
    assert_eq!(bytes_check(b"ab", b"abc"), None);
    assert_eq!(bytes_check(b"xx patch_999", b"patch_999"), Some(3));
}
