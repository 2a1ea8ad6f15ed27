//! Content hashes: the strong one and the fast one, behind one choice.

use crate::lexical::{
    lemma_lex_asymmetric, lemma_lex_connected, lemma_lex_transitive, lemma_octets_injective,
    lex_lt, octets, rank_bytes, Rank,
};
use sha2::Digest;
use sha2::Sha256;
use vstd::prelude::*;

verus! {

/// Which hash a run takes of each file's content.
#[derive(Clone, Copy, Debug, PartialEq, Eq, Structural)]
pub enum HashAlgorithm {
    /// SHA-256, for where integrity matters.
    Sha256,
    /// XXH3 in 64 bits, for where only change is to be seen.
    Xxh3,
}

/// The hash of one file's content.
#[derive(Clone, Debug, PartialEq, Eq, PartialOrd, Ord)]
pub enum ContentHash {
    /// The 32 bytes of a SHA-256 digest.
    Sha256(Vec<u8>),
    /// A 64-bit XXH3 hash.
    Xxh3(u64),
}

/// A content hash as the contracts see it.
pub enum ContentHashView {
    Sha256(Seq<u8>),
    Xxh3(u64),
}

impl View for ContentHash {
    type V = ContentHashView;

    open spec fn view(&self) -> ContentHashView {
        match self {
            ContentHash::Sha256(bytes) => ContentHashView::Sha256(bytes@),
            ContentHash::Xxh3(value) => ContentHashView::Xxh3(*value),
        }
    }
}

/// The 64-bit XXH3 hash of a byte string, with the default secret and no seed.
pub uninterp spec fn xxh3_64_of(input: Seq<u8>) -> u64;

/// The SHA-256 digest of a byte string.
pub uninterp spec fn sha256_of(input: Seq<u8>) -> Seq<u8>;

/// The hash of `content` under the chosen algorithm.
pub open spec fn content_hash_of(algorithm: HashAlgorithm, content: Seq<u8>) -> ContentHashView {
    match algorithm {
        HashAlgorithm::Sha256 => ContentHashView::Sha256(sha256_of(content)),
        HashAlgorithm::Xxh3 => ContentHashView::Xxh3(xxh3_64_of(content)),
    }
}

/// Calls `xxhash_rust::xxh3::xxh3_64`. The contract gives its result a name:
/// the hash is a function of the input bytes alone.
#[verifier::external_body]
fn xxh3_digest(input: &[u8]) -> (hash: u64)
    ensures
        hash == xxh3_64_of(input@),
{
    xxhash_rust::xxh3::xxh3_64(input)
}

/// Calls `Digest::digest` of sha2's `Sha256`. The contract gives its result a
/// name, a function of the input bytes alone, and says that it has the 32
/// bytes of the hasher's output size.
#[verifier::external_body]
fn sha256_digest(input: &[u8]) -> (digest: Vec<u8>)
    ensures
        digest@ == sha256_of(input@),
        digest@.len() == 32,
{
    Sha256::digest(input).to_vec()
}

/// Hashes the whole content of one file.
pub fn hash_content(algorithm: HashAlgorithm, content: &[u8]) -> (hash: ContentHash)
    ensures
        hash@ == content_hash_of(algorithm, content@),
        hash_matches(algorithm, hash@),
{
    match algorithm {
        HashAlgorithm::Sha256 => ContentHash::Sha256(sha256_digest(content)),
        HashAlgorithm::Xxh3 => ContentHash::Xxh3(xxh3_digest(content)),
    }
}

/// A hash has the shape that its algorithm gives.
pub open spec fn hash_matches(algorithm: HashAlgorithm, hash: ContentHashView) -> bool {
    match algorithm {
        HashAlgorithm::Sha256 => hash matches ContentHashView::Sha256(bytes) && bytes.len() == 32,
        HashAlgorithm::Xxh3 => hash is Xxh3,
    }
}

/// The order of hashes: digests before 64-bit hashes, digests among
/// themselves byte by byte, 64-bit hashes by their number.
pub open spec fn hash_lt(a: ContentHashView, b: ContentHashView) -> bool {
    match (a, b) {
        (ContentHashView::Sha256(x), ContentHashView::Sha256(y)) => lex_lt(octets(x), octets(y)),
        (ContentHashView::Sha256(_), ContentHashView::Xxh3(_)) => true,
        (ContentHashView::Xxh3(_), ContentHashView::Sha256(_)) => false,
        (ContentHashView::Xxh3(x), ContentHashView::Xxh3(y)) => x < y,
    }
}

/// Of two hashes at most one comes before the other, and then they differ.
pub proof fn lemma_hash_asymmetric(a: ContentHashView, b: ContentHashView)
    requires
        hash_lt(a, b),
    ensures
        !hash_lt(b, a),
        a != b,
{
    match (a, b) {
        (ContentHashView::Sha256(x), ContentHashView::Sha256(y)) => {
            lemma_lex_asymmetric(octets(x), octets(y));
        },
        _ => {},
    }
}

/// The order of hashes is transitive.
pub proof fn lemma_hash_transitive(a: ContentHashView, b: ContentHashView, c: ContentHashView)
    requires
        hash_lt(a, b),
        hash_lt(b, c),
    ensures
        hash_lt(a, c),
{
    match (a, b, c) {
        (ContentHashView::Sha256(x), ContentHashView::Sha256(y), ContentHashView::Sha256(z)) => {
            lemma_lex_transitive(octets(x), octets(y), octets(z));
        },
        _ => {},
    }
}

/// Two hashes are equal, or one comes before the other.
pub proof fn lemma_hash_connected(a: ContentHashView, b: ContentHashView)
    ensures
        a == b || hash_lt(a, b) || hash_lt(b, a),
{
    match (a, b) {
        (ContentHashView::Sha256(x), ContentHashView::Sha256(y)) => {
            lemma_lex_connected(octets(x), octets(y));
            if octets(x) == octets(y) {
                lemma_octets_injective(x, y);
            }
        },
        _ => {},
    }
}

/// The three-way comparison that `hash_lt` induces.
pub open spec fn hash_rank(a: ContentHashView, b: ContentHashView) -> Rank {
    if hash_lt(a, b) {
        Rank::Before
    } else if a == b {
        Rank::Same
    } else {
        Rank::After
    }
}

/// The sixteen digits in which a digest is written out.
pub open spec fn hex_digit(nibble: int) -> char {
    seq![
        '0',
        '1',
        '2',
        '3',
        '4',
        '5',
        '6',
        '7',
        '8',
        '9',
        'a',
        'b',
        'c',
        'd',
        'e',
        'f',
    ][nibble]
}

/// A byte string written out: two digits for each byte, the high half
/// first, in lower case.
pub open spec fn hex_of(bytes: Seq<u8>) -> Seq<char> {
    Seq::new(
        2 * bytes.len(),
        |i: int|
            if i % 2 == 0 {
                hex_digit(bytes[i / 2] as int / 16)
            } else {
                hex_digit(bytes[i / 2] as int % 16)
            },
    )
}

/// The digit of one half byte, as a text of one character.
fn digit_text(nibble: u8) -> (text: &'static str)
    requires
        nibble < 16,
    ensures
        text@ == seq![hex_digit(nibble as int)],
{
    proof {
        reveal_strlit("0");
        reveal_strlit("1");
        reveal_strlit("2");
        reveal_strlit("3");
        reveal_strlit("4");
        reveal_strlit("5");
        reveal_strlit("6");
        reveal_strlit("7");
        reveal_strlit("8");
        reveal_strlit("9");
        reveal_strlit("a");
        reveal_strlit("b");
        reveal_strlit("c");
        reveal_strlit("d");
        reveal_strlit("e");
        reveal_strlit("f");
    }
    let text = if nibble == 0 {
        "0"
    } else if nibble == 1 {
        "1"
    } else if nibble == 2 {
        "2"
    } else if nibble == 3 {
        "3"
    } else if nibble == 4 {
        "4"
    } else if nibble == 5 {
        "5"
    } else if nibble == 6 {
        "6"
    } else if nibble == 7 {
        "7"
    } else if nibble == 8 {
        "8"
    } else if nibble == 9 {
        "9"
    } else if nibble == 10 {
        "a"
    } else if nibble == 11 {
        "b"
    } else if nibble == 12 {
        "c"
    } else if nibble == 13 {
        "d"
    } else if nibble == 14 {
        "e"
    } else {
        "f"
    };
    proof {
        assert(text@ =~= seq![hex_digit(nibble as int)]);
    }
    text
}

/// Writes a digest out in hexadecimal.
pub fn to_hex(bytes: &[u8]) -> (text: String)
    ensures
        text@ == hex_of(bytes@),
{
    let mut text = String::new();
    let mut i: usize = 0;
    while i < bytes.len()
        invariant
            0 <= i <= bytes.len(),
            text@ == hex_of(bytes@.take(i as int)),
        decreases bytes.len() - i,
    {
        let b = bytes[i];
        let ghost before = text@;
        text.append(digit_text(b / 16));
        text.append(digit_text(b % 16));
        proof {
            let grown = bytes@.take(i + 1);
            assert(grown.len() == i + 1);
            assert forall|k: int| 0 <= k < 2 * (i + 1) implies #[trigger] text@[k] == hex_of(
                grown,
            )[k] by {
                if k < 2 * i {
                    assert(text@[k] == before[k]);
                    assert(bytes@.take(i as int)[k / 2] == grown[k / 2]);
                } else {
                    assert(grown[k / 2] == b);
                }
            }
            assert(text@ =~= hex_of(grown));
        }
        i += 1;
    }
    proof {
        assert(bytes@.take(bytes@.len() as int) =~= bytes@);
    }
    text
}

/// Compares two hashes.
pub fn rank_hashes(a: &ContentHash, b: &ContentHash) -> (r: Rank)
    ensures
        r == hash_rank(a@, b@),
{
    match (a, b) {
        (ContentHash::Sha256(x), ContentHash::Sha256(y)) => {
            let r = rank_bytes(x.as_slice(), y.as_slice());
            proof {
                if octets(x@) == octets(y@) {
                    lemma_octets_injective(x@, y@);
                }
            }
            r
        },
        (ContentHash::Sha256(_), ContentHash::Xxh3(_)) => Rank::Before,
        (ContentHash::Xxh3(_), ContentHash::Sha256(_)) => Rank::After,
        (ContentHash::Xxh3(x), ContentHash::Xxh3(y)) => {
            if *x < *y {
                Rank::Before
            } else if *x == *y {
                Rank::Same
            } else {
                Rank::After
            }
        },
    }
}

} // verus!
