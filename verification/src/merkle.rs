//! A hash tree for content fingerprinting: each node digests its string
//! content into a fixed-size SHA-256 value, treated by the rest of the
//! library as an opaque identifier for audit and deduplication.

use vstd::prelude::*;
use vstd::string::StringSliceAdditionalSpecFns;

verus! {

/// The digest that SHA-256 assigns to a byte sequence.  The function is
/// named, not spelled out: its value is fixed by the algorithm alone.
pub uninterp spec fn sha256_of(bytes: Seq<u8>) -> Seq<u8>;

/// Relies on `ring::digest::digest` with the SHA-256 algorithm: the digest
/// is a deterministic function of the input bytes alone and is 32 bytes
/// long.  ring refuses inputs of 2^64 bits or more, so those are excluded.
#[verifier::external_body]
fn sha256(bytes: &[u8]) -> (r: Vec<u8>)
    requires
        bytes@.len() < 0x2000000000000000,
    ensures
        r@ == sha256_of(bytes@),
        r@.len() == 32,
{
    ring::digest::digest(&ring::digest::SHA256, bytes).as_ref().to_vec()
}

/// The character for one hexadecimal digit, lower case.
pub open spec fn hex_digit(n: u8) -> char {
    if n < 10 {
        (((48 + n) as u8) as char)
    } else {
        (((87 + n) as u8) as char)
    }
}

/// A byte sequence written as lower-case hexadecimal: two digits per byte,
/// high nibble first, in input order.
pub open spec fn hex_of(bytes: Seq<u8>) -> Seq<char>
    decreases bytes.len(),
{
    if bytes.len() == 0 {
        Seq::empty()
    } else {
        hex_of(bytes.drop_last()) + seq![
            hex_digit(bytes.last() / 16),
            hex_digit(bytes.last() % 16),
        ]
    }
}

/// Relies on `hex::encode`: lower-case hexadecimal, two digits per byte,
/// high nibble first, in input order.
#[verifier::external_body]
fn bytes_to_hex(bytes: &[u8]) -> (r: String)
    ensures
        r@ == hex_of(bytes@),
{
    hex::encode(bytes)
}

/// The bytes of all the strings, in order, with nothing between them.
pub open spec fn joined_bytes(vals: Seq<&str>) -> Seq<u8>
    decreases vals.len(),
{
    if vals.len() == 0 {
        Seq::empty()
    } else {
        joined_bytes(vals.drop_last()) + vals.last().spec_bytes()
    }
}

/// The SHA-256 digest of the concatenated byte content of the strings.
fn hash(value: &Vec<&str>) -> (r: Vec<u8>)
    requires
        joined_bytes(value@).len() < 0x2000000000000000,
    ensures
        r@ == sha256_of(joined_bytes(value@)),
        r@.len() == 32,
{
    let mut bytes: Vec<u8> = Vec::new();
    let mut i: usize = 0;
    proof {
        assert(bytes@ =~= joined_bytes(value@.take(0)));
    }
    while i < value.len()
        invariant
            0 <= i <= value@.len(),
            bytes@ == joined_bytes(value@.take(i as int)),
        decreases value@.len() - i,
    {
        let s = value[i];
        let bs = s.as_bytes();
        let mut k: usize = 0;
        while k < bs.len()
            invariant
                0 <= k <= bs@.len(),
                bs@ == value@[i as int].spec_bytes(),
                0 <= i < value@.len(),
                bytes@ == joined_bytes(value@.take(i as int)) + bs@.take(k as int),
            decreases bs@.len() - k,
        {
            bytes.push(bs[k]);
            proof {
                assert(bs@.take(k + 1) =~= bs@.take(k as int).push(bs@[k as int]));
                assert(bytes@ =~= joined_bytes(value@.take(i as int)) + bs@.take(k + 1));
            }
            k = k + 1;
        }
        proof {
            assert(value@.take(i + 1).drop_last() =~= value@.take(i as int));
            assert(value@.take(i + 1).last() == value@[i as int]);
            assert(bs@.take(bs@.len() as int) =~= bs@);
            assert(bytes@ == joined_bytes(value@.take(i + 1)));
        }
        i = i + 1;
    }
    proof {
        assert(value@.take(value@.len() as int) =~= value@);
    }
    sha256(bytes.as_slice())
}

/// A node of the hash tree: its string content, its children, and the
/// digest of its own content.
#[derive(Debug)]
pub struct Node<'a> {
    /// The string content the node fingerprints.
    pub value: Vec<&'a str>,
    /// The node's children.
    pub children: Vec<Node<'a>>,
    /// The SHA-256 digest of the node's concatenated content.
    pub hash: Vec<u8>,
}

impl<'a> Node<'a> {
    /// A leaf node over the given content, with its digest computed.
    pub fn new(value: Vec<&'a str>) -> (r: Node<'a>)
        requires
            joined_bytes(value@).len() < 0x2000000000000000,
        ensures
            r.value@ == value@,
            r.children@ == Seq::<Node<'a>>::empty(),
            r.hash@ == sha256_of(joined_bytes(value@)),
            r.hash@.len() == 32,
    {
        let digest = hash(&value);
        Node { value, children: Vec::new(), hash: digest }
    }

    /// The node's digest, written as lower-case hexadecimal.
    pub fn hash_to_hex(&self) -> (r: String)
        ensures
            r@ == hex_of(self.hash@),
    {
        bytes_to_hex(self.hash.as_slice())
    }

    /// Appends a child node.
    pub fn add_child(&mut self, child: Node<'a>)
        ensures
            final(self).value@ == old(self).value@,
            final(self).hash@ == old(self).hash@,
            final(self).children@ == old(self).children@.push(child),
    {
        self.children.push(child);
    }
}

/// A hash tree, named by its root.
#[derive(Debug)]
pub struct Tree<'a> {
    /// The root node.
    pub root: Node<'a>,
}

} // verus!
