use vstd::prelude::*;

verus! {

/// Decryption key of K-PKE as the decryption side holds it: 384 k encoded bytes.
pub struct DecryptionKey {
    key: [u8; 1152],
}

impl View for DecryptionKey {
    type V = Seq<u8>;

    closed spec fn view(&self) -> Seq<u8> {
        self.key@
    }
}

impl DecryptionKey {
    pub fn new(key: [u8; 1152]) -> (r: Self)
        ensures
            r@ == key@,
    {
        DecryptionKey { key }
    }

    /// The encoded key.
    pub fn key_bytes(&self) -> (r: &[u8])
        ensures
            r@ == self@,
    {
        &self.key
    }
}

} // verus!
