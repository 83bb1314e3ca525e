//! The digest wrapper matches the reference value for a known input.

use blobrepo::hash::{hex_bytes, sha1_digest};

#[test]
fn sha1_of_known_input() {
    let digest = sha1_digest(&b"hello".to_vec());
    let hex = hex_bytes(&digest);
    assert_eq!(hex, b"aaf4c61ddcc5e8a2dabede0f3b482cd9aea9434d".to_vec());
    let digest2 = sha1_digest(&b"hello\n".to_vec());
    let hex2 = hex_bytes(&digest2);
    assert_eq!(hex2, b"f572d396fae9206628714fb2ce00f72e94f2258f".to_vec());
}
