use turbo_parsepdf_core::crypt::{
    aes128_decrypt, aes256_decrypt, compute_u, pad_password, rc4, rc4_owner_rounds, Decryptor, PAD,
};
use turbo_parsepdf_core::object::{Dictionary, Object};

#[test]
fn rc4_known_vector() {
    // RFC 6229 / classic: key "Key", plaintext "Plaintext".
    let ct = rc4(b"Key", b"Plaintext");
    assert_eq!(ct, [0xBB, 0xF3, 0x16, 0xE8, 0xD9, 0x40, 0xAF, 0x0A, 0xD3]);
    // RC4 is symmetric: re-applying recovers the plaintext.
    assert_eq!(rc4(b"Key", &ct), b"Plaintext");
}

#[test]
fn password_padding() {
    assert_eq!(pad_password(b""), PAD);
    let p = pad_password(b"abc");
    assert_eq!(&p[..3], b"abc");
    assert_eq!(&p[3..], &PAD[..29]);
    // Over-long passwords truncate to 32 bytes.
    assert_eq!(pad_password(&[b'x'; 40]), [b'x'; 32]);
}

#[test]
fn aes_short_input_passthrough() {
    // Fewer than 16 bytes → cannot split an IV; returns input unchanged.
    assert_eq!(aes128_decrypt(&[0u8; 16], &[1, 2, 3]), [1, 2, 3]);
}

#[test]
fn owner_rounds_symmetry_r2() {
    // R2 owner rounds are a single RC4 pass.
    let key = b"0123456789abcdef";
    let o = rc4(key, b"useruseruseruser");
    assert_eq!(rc4_owner_rounds(key, &o, 2), b"useruseruseruser");
}

#[test]
fn rc4_twice_is_identity_on_longer_data() {
    let data: Vec<u8> = (0u8..=255).collect();
    let once = rc4(b"secret key", &data);
    assert_ne!(once, data);
    assert_eq!(rc4(b"secret key", &once), data);
}

#[test]
fn aes128_decrypts_iv_prefixed_ciphertext() {
    let key: Vec<u8> = vec![0, 1, 2, 3, 4, 5, 6, 7, 8, 9, 10, 11, 12, 13, 14, 15];
    let data: Vec<u8> = vec![100, 101, 102, 103, 104, 105, 106, 107, 108, 109, 110, 111, 112, 113, 114, 115, 167, 241, 242, 124, 61, 24, 31, 191, 3, 13, 229, 162, 132, 75, 227, 63, 31, 54, 30, 249, 159, 228, 199, 7, 75, 4, 108, 120, 71, 68, 254, 32];
    assert_eq!(aes128_decrypt(&key, &data), b"Hello, PDF world!");
    // A wrong key does not unpad: the input comes back unchanged.
    let wrong = [9u8; 16];
    assert_eq!(aes128_decrypt(&wrong, &data), data);
}

#[test]
fn aes256_decrypts_iv_prefixed_ciphertext() {
    let key: Vec<u8> = vec![32, 33, 34, 35, 36, 37, 38, 39, 40, 41, 42, 43, 44, 45, 46, 47, 48, 49, 50, 51, 52, 53, 54, 55, 56, 57, 58, 59, 60, 61, 62, 63];
    let data: Vec<u8> = vec![100, 101, 102, 103, 104, 105, 106, 107, 108, 109, 110, 111, 112, 113, 114, 115, 236, 252, 37, 99, 20, 226, 151, 174, 243, 8, 169, 107, 186, 190, 1, 156, 224, 145, 99, 23, 109, 90, 84, 142, 184, 42, 233, 12, 150, 235, 192, 184];
    assert_eq!(aes256_decrypt(&key, &data), b"Hello, PDF world!");
    // A 16-byte key cannot drive AES-256: the input comes back unchanged.
    assert_eq!(aes256_decrypt(&key[..16], &data), data);
}

#[test]
fn compute_u_r3_known_value() {
    let key = [1u8, 2, 3, 4, 5];
    let expected: Vec<u8> = vec![29, 82, 147, 220, 20, 225, 102, 40, 240, 194, 149, 77, 147, 100, 121, 77];
    assert_eq!(compute_u(&key, b"fileid0123456789", 3), expected);
    // R2 is a single RC4 pass over the padding string.
    assert_eq!(compute_u(&key, b"fileid0123456789", 2), rc4(&key, &PAD));
}

fn r6_dict() -> Dictionary {
    let mut cf = Dictionary::new();
    let mut std_cf = Dictionary::new();
    std_cf.insert("CFM", Object::Name("AESV3".to_string()));
    cf.insert("StdCF", Object::Dictionary(std_cf));
    let mut d = Dictionary::new();
    d.insert("Filter", Object::Name("Standard".to_string()));
    d.insert("V", Object::Integer(5));
    d.insert("R", Object::Integer(6));
    d.insert("Length", Object::Integer(256));
    d.insert("P", Object::Integer(-4));
    d.insert("CF", Object::Dictionary(cf));
    d.insert("U", Object::String(vec![160, 48, 230, 252, 21, 203, 186, 209, 205, 134, 184, 33, 69, 40, 232, 246, 91, 115, 77, 155, 24, 25, 252, 162, 245, 1, 226, 254, 0, 148, 66, 58, 86, 83, 65, 76, 84, 49, 50, 51, 75, 83, 65, 76, 84, 52, 53, 54]));
    d.insert("UE", Object::String(vec![27, 2, 87, 107, 153, 196, 23, 16, 223, 190, 97, 28, 245, 94, 204, 255, 190, 149, 11, 218, 123, 0, 209, 7, 84, 173, 93, 216, 125, 158, 238, 11]));
    d.insert("O", Object::String(vec![225, 171, 230, 133, 60, 164, 157, 120, 165, 119, 177, 175, 50, 255, 126, 71, 6, 56, 165, 143, 111, 40, 156, 27, 5, 240, 249, 216, 35, 243, 224, 208, 79, 86, 83, 65, 76, 84, 49, 50, 79, 75, 83, 65, 76, 84, 51, 52]));
    d.insert("OE", Object::String(vec![112, 46, 123, 86, 163, 241, 199, 252, 178, 73, 10, 184, 240, 23, 192, 136, 207, 34, 46, 95, 164, 54, 217, 40, 108, 213, 211, 69, 181, 100, 153, 133]));
    d
}

#[test]
fn r6_user_and_owner_passwords_unlock() {
    let obj: Vec<u8> = vec![7, 7, 7, 7, 7, 7, 7, 7, 7, 7, 7, 7, 7, 7, 7, 7, 148, 37, 117, 87, 129, 77, 96, 16, 105, 165, 116, 64, 238, 225, 110, 61];
    let d = r6_dict();
    let user = Decryptor::from_encrypt(&d, b"", b"secret").expect("user password");
    assert_eq!(user.decrypt_bytes(1, 0, &obj), b"Hello R6");
    let owner = Decryptor::from_encrypt(&d, b"", b"owner").expect("owner password");
    assert_eq!(owner.decrypt_bytes(12, 3, &obj), b"Hello R6");
    assert!(Decryptor::from_encrypt(&d, b"", b"wrong").is_none());
}

#[test]
fn rc4_r2_empty_user_password_decrypts_object() {
    let mut d = Dictionary::new();
    d.insert("Filter", Object::Name("Standard".to_string()));
    d.insert("V", Object::Integer(1));
    d.insert("R", Object::Integer(2));
    d.insert("P", Object::Integer(-4));
    d.insert("O", Object::String((0u8..32).collect()));
    d.insert("U", Object::String(vec![173, 183, 86, 143, 105, 247, 158, 125, 247, 50, 139, 170, 210, 64, 39, 167, 0, 243, 130, 16, 239, 89, 237, 241, 180, 149, 172, 148, 21, 23, 101, 72]));
    let dec = Decryptor::from_encrypt(&d, b"fileid0123456789", b"").expect("decryptor");
    let obj: Vec<u8> = vec![204, 242, 225, 173, 130, 187, 210, 66, 186, 3, 66, 58, 12, 139, 163];
    assert_eq!(dec.decrypt_bytes(7, 0, &obj), b"rc4 object text");
    // A non-Standard handler is refused.
    d.insert("Filter", Object::Name("Other".to_string()));
    assert!(Decryptor::from_encrypt(&d, b"fileid0123456789", b"").is_none());
}
