use chat_relay::attachment::{can_encode, encode_file, optimize_image, ResizePlan};

#[test]
fn encodes_the_standard_vectors() {
    assert_eq!(encode_file(b""), "");
    assert_eq!(encode_file(b"f"), "Zg==");
    assert_eq!(encode_file(b"fo"), "Zm8=");
    assert_eq!(encode_file(b"foo"), "Zm9v");
    assert_eq!(encode_file(b"foob"), "Zm9vYg==");
    assert_eq!(encode_file(b"fooba"), "Zm9vYmE=");
    assert_eq!(encode_file(b"foobar"), "Zm9vYmFy");
}

#[test]
fn encodes_with_the_last_two_digits_of_the_alphabet() {
    assert_eq!(encode_file(&[0xfb, 0xff]), "+/8=");
    assert_eq!(encode_file(&[0xff, 0xff, 0xff]), "////");
    assert_eq!(encode_file(&[0x00, 0x00, 0x00]), "AAAA");
}

#[test]
fn encoded_text_is_not_the_input() {
    assert_eq!(encode_file(b"hi"), "aGk=");
    assert_ne!(encode_file(b"hi").as_bytes(), b"hi");
}

#[test]
fn encoded_length_is_four_for_every_three() {
    for len in 0..50usize {
        let bytes = vec![0x5au8; len];
        assert_eq!(encode_file(&bytes).len(), (len + 2) / 3 * 4);
    }
}

#[test]
fn every_file_that_fits_in_memory_can_be_encoded() {
    assert!(can_encode(0));
    assert!(can_encode(1));
    assert!(can_encode(usize::MAX / 2));
    assert!(can_encode(usize::MAX / 4 * 3));
    assert!(!can_encode(usize::MAX / 4 * 3 + 1));
    assert!(!can_encode(usize::MAX));
}

#[test]
fn small_images_are_kept() {
    assert_eq!(optimize_image(0, 0), ResizePlan::Keep);
    assert_eq!(optimize_image(800, 800), ResizePlan::Keep);
    assert_eq!(optimize_image(640, 480), ResizePlan::Keep);
}

#[test]
fn images_up_to_the_threshold_are_kept() {
    assert_eq!(optimize_image(1200, 1200), ResizePlan::Keep);
    assert_eq!(optimize_image(1200, 10), ResizePlan::Keep);
    assert_eq!(optimize_image(801, 1000), ResizePlan::Keep);
}

#[test]
fn larger_images_are_scaled_by_their_longer_side() {
    assert_eq!(optimize_image(1201, 1200), ResizePlan::FitWidth);
    assert_eq!(optimize_image(1200, 1201), ResizePlan::FitHeight);
    assert_eq!(optimize_image(4000, 3000), ResizePlan::FitWidth);
    assert_eq!(optimize_image(3000, 4000), ResizePlan::FitHeight);
    assert_eq!(optimize_image(100, 1300), ResizePlan::FitHeight);
    assert_eq!(optimize_image(u32::MAX, 1), ResizePlan::FitWidth);
}

#[test]
fn square_images_are_scaled_by_their_height() {
    assert_eq!(optimize_image(2000, 2000), ResizePlan::FitHeight);
    assert_eq!(optimize_image(1201, 1201), ResizePlan::FitHeight);
}
