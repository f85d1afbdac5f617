use vstd::prelude::*;
use vstd::string::StringExecFns;
use vstd::string::StringSliceAdditionalSpecFns;

verus! {

/// The digest that SHA-512/256 assigns to a byte sequence. The digest itself
/// is not written out here; verified code relies only on it being one fixed
/// 32-byte value per input.
pub uninterp spec fn sha512_256_of(message: Seq<u8>) -> Seq<u8>;

/// The characters of the unpadded standard base64 rendering of a byte
/// sequence.
pub uninterp spec fn base64_unpadded_of(bytes: Seq<u8>) -> Seq<char>;

/// The eight little-endian bytes of a 64-bit value, used to frame the
/// variable-length fields of the fingerprint preimage.
pub open spec fn le_bytes64(n: u64) -> Seq<u8> {
    Seq::new(8, |i: int| ((n >> (8 * i)) & 0xff) as u8)
}

/// The framed preimage whose digest identifies a service script: the path
/// bytes, a zero separator, the path byte count, a zero separator, the
/// script content, a zero separator, and the content byte count. The
/// explicit counts keep two distinct (path, content) pairs from ever
/// producing the same preimage.
pub open spec fn fingerprint_message(path: Seq<u8>, content: Seq<u8>) -> Seq<u8>
    recommends
        path.len() <= u64::MAX,
        content.len() <= u64::MAX,
{
    path + seq![0u8] + le_bytes64(path.len() as u64) + seq![0u8] + content + seq![0u8]
        + le_bytes64(content.len() as u64)
}

/// The digest of a service script given its path (as characters, hashed in
/// their UTF-8 encoding) and its content bytes.
pub open spec fn fingerprint_digest(path: Seq<char>, content: Seq<u8>) -> Seq<u8> {
    sha512_256_of(fingerprint_message(vstd::utf8::encode_utf8(path), content))
}

/// What a fingerprint holds: the 32-byte digest and the originating path,
/// the latter kept for diagnostics only.
pub ghost struct ShashView {
    pub hash: Seq<u8>,
    pub path: Seq<char>,
}

/// The fingerprint expected of a script at `path` with content `content`.
pub open spec fn fingerprint_of(path: Seq<char>, content: Seq<u8>) -> ShashView {
    ShashView { hash: fingerprint_digest(path, content), path: path }
}

/// The diagnostic rendering of a fingerprint: its digest in unpadded base64,
/// then its path in quotes and brackets.
pub open spec fn display_of(v: ShashView) -> Seq<char> {
    base64_unpadded_of(v.hash) + " [\""@ + v.path + "\"]"@
}

/// A content-derived identity for one service's launch script: a fixed-size
/// cryptographic digest over the script's path and full content, plus the
/// path itself for diagnostics. Equality is over the digest bytes alone.
#[derive(Debug)]
pub struct Shash {
    hash: Vec<u8>,
    path: String,
}

impl View for Shash {
    type V = ShashView;

    closed spec fn view(&self) -> ShashView {
        ShashView { hash: self.hash@, path: self.path@ }
    }
}

/// Relies on sha2::Sha512_256 through digest::Digest::digest: the SHA-512/256
/// digest of the input, 32 bytes, a function of the input bytes alone.
#[verifier::external_body]
fn sha512_256_digest(message: &Vec<u8>) -> (r: Vec<u8>)
    ensures
        r@ == sha512_256_of(message@),
        r@.len() == 32,
{
    <sha2::Sha512_256 as sha2::Digest>::digest(message.as_slice()).to_vec()
}

/// Relies on base64ct::Base64Unpadded::encode_string: unpadded standard
/// base64 of the input, a function of the input bytes alone; it panics only
/// when four times the input length overflows usize.
#[verifier::external_body]
fn base64_unpadded_string(bytes: &Vec<u8>) -> (r: String)
    requires
        4 * bytes@.len() <= usize::MAX,
    ensures
        r@ == base64_unpadded_of(bytes@),
        r@.len() == (4 * bytes@.len() + 2) / 3,
{
    <base64ct::Base64Unpadded as base64ct::Encoding>::encode_string(bytes.as_slice())
}

/// Appends every byte of `src` to `dst`.
fn append_bytes(dst: &mut Vec<u8>, src: &[u8])
    ensures
        final(dst)@ == old(dst)@ + src@,
{
    let mut i: usize = 0;
    while i < src.len()
        invariant
            i <= src@.len(),
            dst@ == old(dst)@ + src@.subrange(0, i as int),
        decreases src@.len() - i,
    {
        let b = src[i];
        dst.push(b);
        proof {
            assert(dst@ =~= old(dst)@ + src@.subrange(0, i + 1 as int));
        }
        i = i + 1;
    }
    proof {
        assert(src@.subrange(0, src@.len() as int) =~= src@);
    }
}

/// Writes a 64-bit value as its eight little-endian bytes.
fn le_bytes64_exec(n: u64) -> (r: Vec<u8>)
    ensures
        r@ == le_bytes64(n),
{
    let mut r: Vec<u8> = Vec::new();
    let mut i: usize = 0;
    while i < 8
        invariant
            i <= 8,
            r@.len() == i,
            forall|j: int| 0 <= j < i ==> r@[j] == ((n >> (8 * j)) & 0xff) as u8,
        decreases 8 - i,
    {
        r.push(((n >> ((8 * i) as u64)) & 0xff) as u8);
        i = i + 1;
    }
    proof {
        assert(r@ =~= le_bytes64(n));
    }
    r
}

/// Builds the framed fingerprint preimage for a path (already encoded as
/// bytes) and a script content.
fn build_message(path_bytes: &Vec<u8>, content: &Vec<u8>) -> (m: Vec<u8>)
    ensures
        m@ == fingerprint_message(path_bytes@, content@),
{
    let mut m: Vec<u8> = Vec::new();
    append_bytes(&mut m, path_bytes.as_slice());
    m.push(0u8);
    let plen = le_bytes64_exec(path_bytes.len() as u64);
    append_bytes(&mut m, plen.as_slice());
    m.push(0u8);
    append_bytes(&mut m, content.as_slice());
    m.push(0u8);
    let clen = le_bytes64_exec(content.len() as u64);
    append_bytes(&mut m, clen.as_slice());
    proof {
        assert(m@ =~= fingerprint_message(path_bytes@, content@));
    }
    m
}

impl Shash {
    /// A fingerprint is well formed when its digest has the fixed size the
    /// hash produces.
    pub open spec fn wf(&self) -> bool {
        self@.hash.len() == 32
    }

    /// Computes the identity of a service script from its path and its full
    /// content bytes: the SHA-512/256 digest of the framed preimage.
    pub fn new(path: String, content: &Vec<u8>) -> (r: Shash)
        ensures
            r@ == fingerprint_of(path@, content@),
            r.wf(),
    {
        let path_bytes: Vec<u8> = vstd::slice::slice_to_vec(path.as_str().as_bytes());
        let message = build_message(&path_bytes, content);
        let hash = sha512_256_digest(&message);
        Shash { hash, path }
    }

    /// The diagnostic rendering of a fingerprint: the digest in unpadded
    /// base64, then the path in quotes and brackets.
    pub fn display_string(&self) -> (r: String)
        requires
            self.wf(),
        ensures
            r@ == display_of(self@),
    {
        let mut r = base64_unpadded_string(&self.hash);
        r.append(" [\"");
        r.append(self.path.as_str());
        r.append("\"]");
        r
    }

    /// The path the fingerprint was computed for.
    pub fn path_str(&self) -> (r: &str)
        ensures
            r@ == self@.path,
    {
        self.path.as_str()
    }

    /// Whether two fingerprints carry the same digest.
    pub fn digest_eq(&self, other: &Shash) -> (r: bool)
        ensures
            r == (self@.hash == other@.hash),
    {
        bytes_eq(&self.hash, &other.hash)
    }

    /// Rebuilds a fingerprint from an already computed 32-byte digest and its
    /// path; anything but 32 digest bytes is rejected.
    pub fn from_digest(hash: Vec<u8>, path: String) -> (r: Option<Shash>)
        ensures
            match r {
                Some(s) => s@.hash == hash@ && s@.path == path@ && s.wf(),
                None => hash@.len() != 32,
            },
    {
        if hash.len() == 32 {
            Some(Shash { hash, path })
        } else {
            None
        }
    }
}

/// Compares two byte vectors for equality of their contents.
fn bytes_eq(a: &Vec<u8>, b: &Vec<u8>) -> (r: bool)
    ensures
        r == (a@ == b@),
{
    if a.len() != b.len() {
        return false;
    }
    let mut i: usize = 0;
    while i < a.len()
        invariant
            a@.len() == b@.len(),
            i <= a@.len(),
            forall|j: int| 0 <= j < i ==> a@[j] == b@[j],
        decreases a@.len() - i,
    {
        if a[i] != b[i] {
            return false;
        }
        i = i + 1;
    }
    proof {
        assert(a@ =~= b@);
    }
    true
}

/// Copies a byte vector.
fn clone_bytes(v: &Vec<u8>) -> (r: Vec<u8>)
    ensures
        r@ == v@,
{
    let mut r: Vec<u8> = Vec::new();
    append_bytes(&mut r, v.as_slice());
    proof {
        assert(r@ =~= v@);
    }
    r
}

impl PartialEq for Shash {
    /// Two fingerprints are equal exactly when their digest bytes are equal;
    /// the path plays no part.
    fn eq(&self, other: &Self) -> (r: bool) {
        bytes_eq(&self.hash, &other.hash)
    }
}

impl vstd::std_specs::cmp::PartialEqSpecImpl for Shash {
    open spec fn obeys_eq_spec() -> bool {
        true
    }

    open spec fn eq_spec(&self, other: &Self) -> bool {
        self@.hash == other@.hash
    }
}

impl Eq for Shash {
}

impl Clone for Shash {
    /// A copy carries the same digest and path.
    fn clone(&self) -> (r: Self)
        ensures
            r@ == self@,
    {
        Shash { hash: clone_bytes(&self.hash), path: self.path.clone() }
    }
}

/// Eight little-endian bytes determine their 64-bit value.
pub proof fn lemma_le_bytes64_injective(a: u64, b: u64)
    requires
        le_bytes64(a) == le_bytes64(b),
    ensures
        a == b,
{
    let s1 = le_bytes64(a);
    let s2 = le_bytes64(b);
    assert(s1[0] == ((a >> 0) & 0xff) as u8 && s2[0] == ((b >> 0) & 0xff) as u8);
    assert(s1[1] == ((a >> 8) & 0xff) as u8 && s2[1] == ((b >> 8) & 0xff) as u8);
    assert(s1[2] == ((a >> 16) & 0xff) as u8 && s2[2] == ((b >> 16) & 0xff) as u8);
    assert(s1[3] == ((a >> 24) & 0xff) as u8 && s2[3] == ((b >> 24) & 0xff) as u8);
    assert(s1[4] == ((a >> 32) & 0xff) as u8 && s2[4] == ((b >> 32) & 0xff) as u8);
    assert(s1[5] == ((a >> 40) & 0xff) as u8 && s2[5] == ((b >> 40) & 0xff) as u8);
    assert(s1[6] == ((a >> 48) & 0xff) as u8 && s2[6] == ((b >> 48) & 0xff) as u8);
    assert(s1[7] == ((a >> 56) & 0xff) as u8 && s2[7] == ((b >> 56) & 0xff) as u8);
    assert(a == b) by (bit_vector)
        requires
            ((a >> 0) & 0xff) as u8 == ((b >> 0) & 0xff) as u8,
            ((a >> 8) & 0xff) as u8 == ((b >> 8) & 0xff) as u8,
            ((a >> 16) & 0xff) as u8 == ((b >> 16) & 0xff) as u8,
            ((a >> 24) & 0xff) as u8 == ((b >> 24) & 0xff) as u8,
            ((a >> 32) & 0xff) as u8 == ((b >> 32) & 0xff) as u8,
            ((a >> 40) & 0xff) as u8 == ((b >> 40) & 0xff) as u8,
            ((a >> 48) & 0xff) as u8 == ((b >> 48) & 0xff) as u8,
            ((a >> 56) & 0xff) as u8 == ((b >> 56) & 0xff) as u8,
    ;
}

/// The framed preimage determines the path bytes and the content bytes:
/// the zero separators and explicit length fields leave no way for two
/// distinct (path, content) pairs to share a preimage.
pub proof fn lemma_fingerprint_message_injective(
    p1: Seq<u8>,
    c1: Seq<u8>,
    p2: Seq<u8>,
    c2: Seq<u8>,
)
    requires
        p1.len() <= u64::MAX,
        c1.len() <= u64::MAX,
        p2.len() <= u64::MAX,
        c2.len() <= u64::MAX,
        fingerprint_message(p1, c1) == fingerprint_message(p2, c2),
    ensures
        p1 == p2,
        c1 == c2,
{
    let m = fingerprint_message(p1, c1);
    assert(m.len() == p1.len() + c1.len() + 19);
    assert(m.len() == p2.len() + c2.len() + 19);
    let off1 = p1.len() + c1.len() + 11;
    assert(m.subrange(off1 as int, m.len() as int) =~= le_bytes64(c1.len() as u64));
    assert(m.subrange(off1 as int, m.len() as int) =~= le_bytes64(c2.len() as u64));
    lemma_le_bytes64_injective(c1.len() as u64, c2.len() as u64);
    assert(c1.len() == c2.len());
    assert(p1.len() == p2.len());
    assert forall|i: int| 0 <= i < p1.len() implies p1[i] == p2[i] by {
        assert(p1[i] == fingerprint_message(p1, c1)[i]);
        assert(p2[i] == fingerprint_message(p2, c2)[i]);
    }
    assert(p1 =~= p2);
    assert forall|i: int| 0 <= i < c1.len() implies c1[i] == c2[i] by {
        assert(c1[i] == fingerprint_message(p1, c1)[p1.len() + 10 + i]);
        assert(c2[i] == fingerprint_message(p2, c2)[p2.len() + 10 + i]);
    }
    assert(c1 =~= c2);
}

/// One path and one content give one fingerprint: the identity is a function
/// of what was read, and nothing else.
pub proof fn lemma_fingerprint_deterministic(
    path: Seq<char>,
    content: Seq<u8>,
    a: ShashView,
    b: ShashView,
)
    requires
        a == fingerprint_of(path, content),
        b == fingerprint_of(path, content),
    ensures
        a == b,
        a.hash == b.hash,
{
}

/// Changing the path or any content byte changes the hashed preimage: two
/// fingerprints agree on their preimage only when path and content both
/// agree.
pub proof fn lemma_fingerprint_preimage_injective(
    path1: Seq<char>,
    content1: Seq<u8>,
    path2: Seq<char>,
    content2: Seq<u8>,
)
    requires
        vstd::utf8::encode_utf8(path1).len() <= u64::MAX,
        vstd::utf8::encode_utf8(path2).len() <= u64::MAX,
        content1.len() <= u64::MAX,
        content2.len() <= u64::MAX,
    ensures
        fingerprint_message(vstd::utf8::encode_utf8(path1), content1) == fingerprint_message(
            vstd::utf8::encode_utf8(path2),
            content2,
        ) ==> path1 == path2 && content1 == content2,
{
    if fingerprint_message(vstd::utf8::encode_utf8(path1), content1) == fingerprint_message(
        vstd::utf8::encode_utf8(path2),
        content2,
    ) {
        lemma_fingerprint_message_injective(
            vstd::utf8::encode_utf8(path1),
            content1,
            vstd::utf8::encode_utf8(path2),
            content2,
        );
        vstd::utf8::encode_utf8_decode_utf8(path1);
        vstd::utf8::encode_utf8_decode_utf8(path2);
    }
}

} // verus!
