//! Fingerprints of file contents, computed by the crate `blake3`.

use vstd::prelude::*;

use crate::bytes::{le64, read64};
use crate::text::bytes_less;

verus! {

/// The running state of a fingerprint.
#[verifier::external_type_specification]
#[verifier::external_body]
pub struct ExHasher(blake3::Hasher);

/// The bytes that a `blake3::Hasher` was given so far.
pub uninterp spec fn hasher_input(h: blake3::Hasher) -> Seq<u8>;

/// What `blake3::hash` makes of some bytes.
pub uninterp spec fn blake3_hash(input: Seq<u8>) -> Seq<u8>;

/// `blake3::hash`: the fingerprint of some bytes, 32 bytes that depend on them alone. How they
/// come about is left to the crate.
#[verifier::external_body]
fn hash_bytes(input: &[u8]) -> (r: [u8; 32])
    ensures
        r@ == blake3_hash(input@),
{
    *blake3::hash(input).as_bytes()
}

/// `Hasher::new`: a state that was given nothing yet.
#[verifier::external_body]
fn new_hasher() -> (h: blake3::Hasher)
    ensures
        hasher_input(h) == Seq::<u8>::empty(),
{
    blake3::Hasher::new()
}

/// `Hasher::update`: takes more bytes in. The crate counts them in 64 bits, so more than that
/// is left out.
#[verifier::external_body]
fn update(h: &mut blake3::Hasher, input: &[u8])
    requires
        hasher_input(*old(h)).len() + input@.len() <= u64::MAX,
    ensures
        hasher_input(*final(h)) == hasher_input(*old(h)) + input@,
{
    h.update(input);
}

/// `Hasher::finalize`: the fingerprint of everything taken in, the same as that of the bytes at
/// once.
#[verifier::external_body]
fn finalize(h: &blake3::Hasher) -> (r: [u8; 32])
    ensures
        r@ == blake3_hash(hasher_input(*h)),
{
    *h.finalize().as_bytes()
}

/// The character for a lower case hexadecimal digit.
pub open spec fn hex_lower_char(d: int) -> char {
    if d < 10 {
        (0x30 + d) as char
    } else {
        (0x61 + d - 10) as char
    }
}

/// Bytes in lower case hexadecimal, two digits each.
pub open spec fn hex_text(b: Seq<u8>) -> Seq<char> {
    Seq::new(
        b.len() * 2,
        |i: int|
            hex_lower_char(
                if i % 2 == 0 {
                    b[i / 2] as int / 16
                } else {
                    b[i / 2] as int % 16
                },
            ),
    )
}

/// `Hash::to_hex`: a fingerprint in lower case hexadecimal, two digits per byte.
#[verifier::external_body]
pub(crate) fn to_hex(hash: &[u8; 32]) -> (r: String)
    ensures
        r@ == hex_text(hash@),
{
    blake3::Hash::from_bytes(*hash).to_hex().to_string()
}

/// How many bytes at the start of a file tell most files apart.
pub const WINDOW_BYTES: usize = 65_536;

/// How many bytes to read at the start of a file.
pub fn window_len(size: u64) -> (r: usize)
    ensures
        r == if size < WINDOW_BYTES {
            size as int
        } else {
            WINDOW_BYTES as int
        },
{
    if size < 65_536 {
        size as usize
    } else {
        WINDOW_BYTES
    }
}

/// What stands for the start of a file: the first eight bytes of its fingerprint.
pub open spec fn window_key(window: Seq<u8>) -> u64 {
    le64(blake3_hash(window), 0)
}

/// What stands for the start of a file. Of an empty window nothing is read; a file that could
/// not be read has none.
pub fn hash_window(len: usize, read: Option<&[u8]>) -> (r: Option<u64>)
    ensures
        len == 0 ==> r == Some(0u64),
        len > 0 && read is None ==> r is None,
        len > 0 && read is Some ==> r == Some(window_key(read->0@)),
{
    if len == 0 {
        return Some(0);
    }
    match read {
        Some(window) => {
            let h = hash_bytes(window);
            let first: u64 = read64(&h, 0);
            Some(first)
        },
        None => None,
    }
}

/// The fingerprint of a whole file, taken in piece by piece.
pub struct FileHash {
    state: blake3::Hasher,
    count: u64,
}

impl View for FileHash {
    type V = Seq<u8>;

    closed spec fn view(&self) -> Seq<u8> {
        hasher_input(self.state)
    }
}

impl FileHash {
    /// The bytes are counted right.
    pub closed spec fn wf(&self) -> bool {
        self.count == hasher_input(self.state).len()
    }

    /// Nothing taken in yet.
    pub fn new() -> (r: Self)
        ensures
            r.wf(),
            r@ == Seq::<u8>::empty(),
    {
        FileHash { state: new_hasher(), count: 0 }
    }

    /// Takes the next piece in, unless that makes more bytes than can be counted.
    pub fn feed(&mut self, piece: &[u8]) -> (ok: bool)
        requires
            old(self).wf(),
        ensures
            final(self).wf(),
            ok == (old(self)@.len() + piece@.len() <= u64::MAX),
            final(self)@ == if ok {
                old(self)@ + piece@
            } else {
                old(self)@
            },
    {
        if piece.len() as u64 > u64::MAX - self.count {
            return false;
        }
        update(&mut self.state, piece);
        self.count = self.count + piece.len() as u64;
        true
    }

    /// The fingerprint of everything taken in.
    pub fn finish(&self) -> (r: [u8; 32])
        ensures
            r@ == blake3_hash(self@),
    {
        finalize(&self.state)
    }
}

/// What came of opening a file and reading the next piece of it.
pub enum ReadReply<'a> {
    OpenFailed(&'a str),
    /// The next piece; an empty one at the end of the file.
    Data(&'a [u8]),
    ReadFailed(&'a str),
}

/// What is known of the fingerprint of a file after the next reply, where the bytes before it
/// were `seen`: nothing yet, an error, or the fingerprint in hexadecimal.
pub open spec fn hash_reply(seen: Seq<u8>, reply: ReadReply<'_>) -> Option<
    Result<Seq<char>, Seq<char>>,
> {
    match reply {
        ReadReply::OpenFailed(e) => Some(Err("打开文件失败: "@ + e@)),
        ReadReply::ReadFailed(e) => Some(Err("读取文件失败: "@ + e@)),
        ReadReply::Data(piece) => if piece@.len() == 0 {
            Some(Ok(hex_text(blake3_hash(seen))))
        } else {
            None
        },
    }
}

/// The texts in an optional result.
pub open spec fn told_option(r: Option<Result<String, String>>) -> Option<
    Result<Seq<char>, Seq<char>>,
> {
    match r {
        Some(Ok(s)) => Some(Ok(s@)),
        Some(Err(e)) => Some(Err(e@)),
        None => None,
    }
}

/// The fingerprint of a file, piece by piece: nothing while there is more to read. The pieces
/// of a file are at most as long together as the program can count.
pub fn hash_file_blake3(state: &mut FileHash, reply: ReadReply<'_>) -> (r: Option<
    Result<String, String>,
>)
    requires
        old(state).wf(),
        match reply {
            ReadReply::Data(piece) => old(state)@.len() + piece@.len() <= u64::MAX,
            _ => true,
        },
    ensures
        final(state).wf(),
        told_option(r) == hash_reply(old(state)@, reply),
        final(state)@ == match reply {
            ReadReply::Data(piece) => old(state)@ + piece@,
            _ => old(state)@,
        },
{
    match reply {
        ReadReply::OpenFailed(e) => Some(Err(crate::file_ops::pair("打开文件失败: ", e))),
        ReadReply::ReadFailed(e) => Some(Err(crate::file_ops::pair("读取文件失败: ", e))),
        ReadReply::Data(piece) => {
            if piece.len() == 0 {
                assert(state@ + piece@ =~= state@);
                return Some(Ok(to_hex(&state.finish())));
            }
            let _ = state.feed(piece);
            None
        },
    }
}

/// What is taken in once all of some pieces were fed, one after the other, to a state that has
/// taken in `seen`.
pub open spec fn fed(seen: Seq<u8>, pieces: Seq<Seq<u8>>) -> Seq<u8>
    decreases pieces.len(),
{
    if pieces.len() == 0 {
        seen
    } else {
        fed(seen, pieces.drop_last()) + pieces.last()
    }
}

/// The bytes of some pieces in a row.
pub open spec fn joined(pieces: Seq<Seq<u8>>) -> Seq<u8>
    decreases pieces.len(),
{
    if pieces.len() == 0 {
        Seq::empty()
    } else {
        joined(pieces.drop_last()) + pieces.last()
    }
}

proof fn lemma_fed(seen: Seq<u8>, pieces: Seq<Seq<u8>>)
    ensures
        fed(seen, pieces) == seen + joined(pieces),
    decreases pieces.len(),
{
    if pieces.len() == 0 {
        assert(seen + joined(pieces) =~= seen);
    } else {
        lemma_fed(seen, pieces.drop_last());
        assert((seen + joined(pieces.drop_last())) + pieces.last() =~= seen + (joined(
            pieces.drop_last(),
        ) + pieces.last()));
    }
}

/// The fingerprint of a file does not depend on the pieces that it is read in: any two ways of
/// cutting the same content give the same answer in the end, and where the end of the file is
/// reached it is the fingerprint of the content.
pub proof fn law_pieces_do_not_matter(a: Seq<Seq<u8>>, b: Seq<Seq<u8>>, end: ReadReply<'_>)
    requires
        joined(a) == joined(b),
    ensures
        fed(Seq::empty(), a) == fed(Seq::empty(), b),
        hash_reply(fed(Seq::empty(), a), end) == hash_reply(fed(Seq::empty(), b), end),
        end matches ReadReply::Data(piece) && piece@.len() == 0 ==> hash_reply(
            fed(Seq::empty(), a),
            end,
        ) == Some(Ok::<Seq<char>, Seq<char>>(hex_text(blake3_hash(joined(a))))),
{
    lemma_fed(Seq::empty(), a);
    lemma_fed(Seq::empty(), b);
    assert(Seq::<u8>::empty() + joined(a) =~= joined(a));
}

/// Whether one fingerprint comes before another in dictionary order.
pub fn hash_less(a: &[u8; 32], b: &[u8; 32]) -> (r: bool)
    ensures
        r == crate::text::lex_less(a@, b@),
{
    bytes_less(a, b)
}

} // verus!
