//! Content digests: of written sparse profiles, and of the build files of
//! a commit.

use vstd::prelude::*;

verus! {

/// The SHA-256 digest of a byte sequence.
pub uninterp spec fn sha256(data: Seq<u8>) -> Seq<u8>;

/// Calls `sha2::Sha256::digest` (from the `digest` crate's `Digest` trait),
/// which hashes the whole input at once. Claimed: the result is
/// `sha256(data)` and is 32 bytes long (SHA-256's output size).
#[verifier::external_body]
fn sha256_digest(data: &[u8]) -> (res: Vec<u8>)
    ensures
        res@ == sha256(data@),
        res@.len() == 32,
{
    <sha2::Sha256 as sha2::Digest>::digest(data).to_vec()
}

/// The digest of a text: SHA-256 of its UTF-8 encoding.
pub fn text_digest(text: &str) -> (res: Vec<u8>)
    ensures
        res@ == sha256(vstd::utf8::encode_utf8(text@)),
        res@.len() == 32,
{
    sha256_digest(text.as_bytes())
}


/// The bytes that a build graph's hash is made of: for each build file, in
/// order, the path of its directory, its name and its blob id.
pub open spec fn build_graph_bytes(entries: Seq<(Seq<u8>, Seq<u8>, Seq<u8>)>) -> Seq<u8>
    decreases entries.len(),
{
    if entries.len() == 0 {
        Seq::empty()
    } else {
        let e = entries.last();
        build_graph_bytes(entries.drop_last()) + e.0 + e.1 + e.2
    }
}

pub open spec fn entry_views(v: Seq<(Vec<u8>, Vec<u8>, Vec<u8>)>) -> Seq<(Seq<u8>, Seq<u8>, Seq<u8>)> {
    v.map_values(|e: (Vec<u8>, Vec<u8>, Vec<u8>)| (e.0@, e.1@, e.2@))
}

fn append_bytes(out: &mut Vec<u8>, more: &Vec<u8>)
    ensures
        final(out)@ == old(out)@ + more@,
{
    let ghost start = out@;
    let mut i: usize = 0;
    while i < more.len()
        invariant
            i <= more@.len(),
            out@ == start + more@.subrange(0, i as int),
        decreases more@.len() - i,
    {
        out.push(more[i]);
        assert(out@ =~= start + more@.subrange(0, i + 1));
        i = i + 1;
    }
    assert(more@.subrange(0, i as int) =~= more@);
}

/// The hash of a commit's build graph: SHA-256 over the directory, name and
/// blob id of each of its build files, walked in order.
pub fn build_graph_digest(entries: &Vec<(Vec<u8>, Vec<u8>, Vec<u8>)>) -> (res: Vec<u8>)
    ensures
        res@ == sha256(build_graph_bytes(entry_views(entries@))),
        res@.len() == 32,
{
    let ghost ev = entry_views(entries@);
    let mut bytes: Vec<u8> = Vec::new();
    let mut i: usize = 0;
    assert(ev.subrange(0, 0) =~= Seq::<(Seq<u8>, Seq<u8>, Seq<u8>)>::empty());
    while i < entries.len()
        invariant
            i <= entries@.len(),
            ev == entry_views(entries@),
            bytes@ == build_graph_bytes(ev.subrange(0, i as int)),
        decreases entries@.len() - i,
    {
        let e = &entries[i];
        proof {
            assert(ev.subrange(0, i + 1).drop_last() =~= ev.subrange(0, i as int));
            assert(ev.subrange(0, i + 1).last() == (e.0@, e.1@, e.2@));
        }
        append_bytes(&mut bytes, &e.0);
        append_bytes(&mut bytes, &e.1);
        append_bytes(&mut bytes, &e.2);
        i = i + 1;
    }
    assert(ev.subrange(0, i as int) =~= ev);
    sha256_digest(bytes.as_slice())
}

} // verus!
