use ct_resume_hash::sha256::sha256;

fn hex(bytes: &[u8]) -> String {
    let mut s = String::new();
    for b in bytes {
        s.push_str(&format!("{:02x}", b));
    }
    s
}

#[test]
fn digest_of_empty_message() {
    assert_eq!(
        hex(&sha256(b"")),
        "e3b0c44298fc1c149afbf4c8996fb92427ae41e4649b934ca495991b7852b855"
    );
}

#[test]
fn digest_of_abc() {
    assert_eq!(
        hex(&sha256(b"abc")),
        "ba7816bf8f01cfea414140de5dae2223b00361a396177a9cb410ff61f20015ad"
    );
}

#[test]
fn digest_of_two_block_message() {
    assert_eq!(
        hex(&sha256(b"abcdbcdecdefdefgefghfghighijhijkijkljklmklmnlmnomnopnopq")),
        "248d6a61d20638b8e5c026930c3e6039a33ce45964ff2167f6ecedd419db06c1"
    );
}

#[test]
fn digest_of_million_a() {
    let data = vec![b'a'; 1_000_000];
    assert_eq!(
        hex(&sha256(&data)),
        "cdc76e5c9914fb9281a1c7e284d73e67f1809a48a497200e046d39ccc7112cd0"
    );
}

#[test]
fn digest_at_padding_boundaries() {
    // 55 bytes fill one block with the padding, 56 need a second block.
    assert_eq!(
        hex(&sha256(&vec![b'a'; 55])),
        "9f4390f8d30c2dd92ec9f095b65e2b9ae9b0a925a5258e241c9f1e910f734318"
    );
    assert_eq!(
        hex(&sha256(&vec![b'a'; 56])),
        "b35439a4ac6f0948b6d6f9e3c6af0f5f590ce20f1bde7090ef7970686ec6738a"
    );
    assert_eq!(
        hex(&sha256(&vec![b'a'; 64])),
        "ffe054fe7ae0cb6dc65c3af9b61d5209f439851db43d0ba5997337df154668eb"
    );
}

#[test]
fn digest_with_two_closing_blocks() {
    // 119 bytes close in two blocks, 120 in one block after a whole one.
    assert_eq!(
        hex(&sha256(&vec![b'a'; 119])),
        "31eba51c313a5c08226adf18d4a359cfdfd8d2e816b13f4af952f7ea6584dcfb"
    );
    assert_eq!(
        hex(&sha256(&vec![b'a'; 120])),
        "2f3d335432c70b580af0e8e1b3674a7c020d683aa5f73aaaedfdc55af904c21c"
    );
}

#[test]
fn length_is_written_most_significant_byte_first() {
    let mut out = vec![0xee];
    ct_resume_hash::sha256::push_be64(&mut out, 0x0102_0304_0506_0708);
    assert_eq!(out, vec![0xee, 1, 2, 3, 4, 5, 6, 7, 8]);
}
