//! Identity tokens: the per-file values whose equality makes two files
//! duplicates under a chosen comparison strategy.

use vstd::prelude::*;

use sha3::Digest;
use vstd::string::StringExecFns;

use crate::Comparison;
use crate::tree::{FsTree, PathModel};

verus! {

/// Why one entry was excluded from the result groups.
#[derive(Clone, Copy, Debug, PartialEq, Eq, Structural)]
pub enum ScanErrorKind {
    /// The path has no final component to use as a name.
    NoName,
    /// The file's content could not be read.
    UnreadableFile,
    /// The directory's children could not be listed.
    UnreadableDir,
    /// The entry's metadata could not be read.
    Metadata,
}

/// The SHA3-256 digest, 32 bytes, of a byte sequence.
pub uninterp spec fn sha3_256_of(bytes: Seq<u8>) -> Seq<u8>;

/// Relies on sha3::Sha3_256 through digest::Digest::digest: the SHA3-256
/// digest of the input, 32 bytes, a function of the input bytes alone.
#[verifier::external_body]
fn sha3_256(data: &Vec<u8>) -> (r: Vec<u8>)
    ensures
        r@ == sha3_256_of(data@),
        r@.len() == 32,
{
    sha3::Sha3_256::digest(data.as_slice()).as_slice().to_vec()
}

/// Relies on String::push from std: appends one character to the string.
#[verifier::external_body]
fn push_char(s: &mut String, c: char)
    ensures
        final(s)@ == old(s)@.push(c),
{
    s.push(c);
}

/// The lowercase hexadecimal digit for a value below 16.
pub open spec fn spec_hex_char(n: u8) -> char {
    if n < 10 {
        ((n + ('0' as u8)) as char)
    } else {
        ((n - 10 + ('a' as u8)) as char)
    }
}

fn hex_char(n: u8) -> (c: char)
    requires
        n < 16,
    ensures
        c == spec_hex_char(n),
{
    if n < 10 {
        (n + ('0' as u8)) as char
    } else {
        (n - 10 + ('a' as u8)) as char
    }
}

/// Two lowercase hexadecimal digits per byte, most significant first.
pub open spec fn spec_hex(bytes: Seq<u8>) -> Seq<char>
    decreases bytes.len(),
{
    if bytes.len() == 0 {
        Seq::empty()
    } else {
        spec_hex(bytes.drop_last()) + seq![
            spec_hex_char(bytes.last() / 16),
            spec_hex_char(bytes.last() % 16),
        ]
    }
}

/// The identity token under `Comparison::Hash`: `0x` followed by the
/// lowercase hexadecimal SHA3-256 digest of the content.
pub open spec fn spec_hash_token(content: Seq<u8>) -> Seq<char> {
    seq!['0', 'x'] + spec_hex(sha3_256_of(content))
}

/// Hexadecimal digits are never a separator colon.
pub proof fn lemma_spec_hex_no_colon(bytes: Seq<u8>)
    ensures
        forall|k: int| 0 <= k < spec_hex(bytes).len() ==> spec_hex(bytes)[k] != ':',
    decreases bytes.len(),
{
    if bytes.len() > 0 {
        lemma_spec_hex_no_colon(bytes.drop_last());
        let rest = spec_hex(bytes.drop_last());
        assert forall|k: int| 0 <= k < spec_hex(bytes).len() implies spec_hex(bytes)[k] != ':' by {
            if k < rest.len() {
                assert(spec_hex(bytes)[k] == rest[k]);
            } else if k == rest.len() {
                assert(spec_hex(bytes)[k] == spec_hex_char(bytes.last() / 16));
            } else {
                assert(spec_hex(bytes)[k] == spec_hex_char(bytes.last() % 16));
            }
        }
    }
}

/// A hash token never contains the separator colon.
pub proof fn lemma_hash_token_no_colon(content: Seq<u8>)
    ensures
        forall|k: int| 0 <= k < spec_hash_token(content).len() ==> spec_hash_token(content)[k]
            != ':',
{
    lemma_spec_hex_no_colon(sha3_256_of(content));
}

/// The identity under `Comparison::FileName`: the path's final component.
pub open spec fn spec_name_id(path: PathModel) -> Result<Seq<char>, ScanErrorKind> {
    if path.len() > 0 {
        Ok(path.last())
    } else {
        Err(ScanErrorKind::NoName)
    }
}

/// The identity under `Comparison::Hash`: the content's hash token, or an
/// error when the content could not be read (or the entry is no file).
pub open spec fn spec_hash_id(node: FsTree) -> Result<Seq<char>, ScanErrorKind> {
    match node {
        FsTree::File { content, .. } => Ok(spec_hash_token(content@)),
        _ => Err(ScanErrorKind::UnreadableFile),
    }
}

/// The identity of the file at `path`: what each strategy computes, or the
/// first error it meets. `Both` joins name and hash token with `:`, failing
/// on a missing name first, as the name is computed first.
pub open spec fn spec_identity(comp: Comparison, path: PathModel, node: FsTree) -> Result<
    Seq<char>,
    ScanErrorKind,
> {
    match comp {
        Comparison::FileName => spec_name_id(path),
        Comparison::Hash => spec_hash_id(node),
        Comparison::Both => match (spec_name_id(path), spec_hash_id(node)) {
            (Err(e), _) => Err(e),
            (Ok(_), Err(e)) => Err(e),
            (Ok(n), Ok(h)) => Ok(n + seq![':'] + h),
        },
    }
}

/// The file's base name (its final path component) as its identity token.
pub fn get_file_id_by_file_name(path: &Vec<String>) -> (r: Result<String, ScanErrorKind>)
    ensures
        r matches Ok(s) ==> spec_name_id(path.deep_view()) == Ok::<Seq<char>, ScanErrorKind>(s@),
        r matches Err(e) ==> spec_name_id(path.deep_view()) == Err::<Seq<char>, ScanErrorKind>(e),
{
    if path.len() > 0 {
        let s = path[path.len() - 1].clone();
        assert(path.deep_view().last() == path@.last()@);
        Ok(s)
    } else {
        assert(path.deep_view().len() == 0);
        Err(ScanErrorKind::NoName)
    }
}

/// `0x` followed by the lowercase hexadecimal SHA3-256 digest of the file's
/// content, or an error when the content could not be read.
pub fn get_file_id_by_hash(node: &FsTree) -> (r: Result<String, ScanErrorKind>)
    ensures
        r matches Ok(s) ==> spec_hash_id(*node) == Ok::<Seq<char>, ScanErrorKind>(s@),
        r matches Err(e) ==> spec_hash_id(*node) == Err::<Seq<char>, ScanErrorKind>(e),
{
    match node {
        FsTree::File { content, .. } => {
            let digest = sha3_256(content);
            let mut s = String::new();
            push_char(&mut s, '0');
            push_char(&mut s, 'x');
            assert(s@ =~= seq!['0', 'x']);
            assert(s@ =~= seq!['0', 'x'] + spec_hex(digest@.take(0)));
            let mut i: usize = 0;
            while i < digest.len()
                invariant
                    i <= digest.len(),
                    s@ == seq!['0', 'x'] + spec_hex(digest@.take(i as int)),
                decreases digest.len() - i,
            {
                let b = digest[i];
                push_char(&mut s, hex_char(b / 16));
                push_char(&mut s, hex_char(b % 16));
                assert(digest@.take(i as int + 1).drop_last() =~= digest@.take(i as int));
                assert(digest@.take(i as int + 1).last() == digest@[i as int]);
                assert(s@ =~= seq!['0', 'x'] + spec_hex(digest@.take(i as int + 1)));
                i = i + 1;
            }
            assert(digest@.take(digest@.len() as int) =~= digest@);
            assert(s@ =~= spec_hash_token(content@));
            Ok(s)
        },
        _ => Err(ScanErrorKind::UnreadableFile),
    }
}

/// Base name and content hash joined by `:`: duplicates must agree on both.
pub fn get_file_id_by_both(path: &Vec<String>, node: &FsTree) -> (r: Result<
    String,
    ScanErrorKind,
>)
    ensures
        r matches Ok(s) ==> spec_identity(Comparison::Both, path.deep_view(), *node) == Ok::<
            Seq<char>,
            ScanErrorKind,
        >(s@),
        r matches Err(e) ==> spec_identity(Comparison::Both, path.deep_view(), *node) == Err::<
            Seq<char>,
            ScanErrorKind,
        >(e),
{
    let name = match get_file_id_by_file_name(path) {
        Ok(name) => name,
        Err(e) => {
            return Err(e);
        },
    };
    let hash = match get_file_id_by_hash(node) {
        Ok(hash) => hash,
        Err(e) => {
            return Err(e);
        },
    };
    let mut joined = name;
    push_char(&mut joined, ':');
    let r = joined.concat(hash.as_str());
    assert(r@ =~= path.deep_view().last() + seq![':'] + hash@);
    Ok(r)
}

/// The identity token of the file at `path` under the chosen strategy.
pub fn get_file_id(comp: Comparison, path: &Vec<String>, node: &FsTree) -> (r: Result<
    String,
    ScanErrorKind,
>)
    ensures
        r matches Ok(s) ==> spec_identity(comp, path.deep_view(), *node) == Ok::<
            Seq<char>,
            ScanErrorKind,
        >(s@),
        r matches Err(e) ==> spec_identity(comp, path.deep_view(), *node) == Err::<
            Seq<char>,
            ScanErrorKind,
        >(e),
{
    match comp {
        Comparison::FileName => get_file_id_by_file_name(path),
        Comparison::Hash => get_file_id_by_hash(node),
        Comparison::Both => get_file_id_by_both(path, node),
    }
}

} // verus!
