//! SHA-256 digests (`sha2` crate) and their lower-case hex text.
use vstd::prelude::*;
use crate::text::string_of;

verus! {

/// SHA-256 digest of `data`.
pub uninterp spec fn sha256_of(data: Seq<u8>) -> Seq<u8>;

/// `sha2::Sha256::digest`: the digest of `data`, named `sha256_of`; a SHA-256
/// output is 32 bytes (`U32` output size in the crate).
#[verifier::external_body]
pub fn sha256_digest(data: &[u8]) -> (r: Vec<u8>)
    ensures
        r@ == sha256_of(data@),
        r@.len() == 32,
{
    <sha2::Sha256 as sha2::Digest>::digest(data).to_vec()
}

pub open spec fn hex_digit(d: u8) -> char {
    if d < 10 { ((48 + d) as u8) as char } else { ((87 + d) as u8) as char }
}

/// Lower-case hex text of `bytes`, two digits per byte.
pub open spec fn hex_lower(bytes: Seq<u8>) -> Seq<char>
    decreases bytes.len(),
{
    if bytes.len() == 0 {
        Seq::empty()
    } else {
        hex_lower(bytes.drop_last()) + seq![hex_digit(bytes.last() / 16), hex_digit(bytes.last() % 16)]
    }
}

fn hex_digit_exec(d: u8) -> (c: char)
    requires
        d < 16,
    ensures
        c == hex_digit(d),
{
    if d < 10 { (48 + d) as char } else { (87 + d) as char }
}

pub fn hex_lower_string(bytes: &[u8]) -> (r: String)
    ensures
        r@ == hex_lower(bytes@),
{
    let mut v: Vec<char> = Vec::new();
    let mut i: usize = 0;
    while i < bytes.len()
        invariant
            i <= bytes.len(),
            v@ == hex_lower(bytes@.subrange(0, i as int)),
        decreases bytes.len() - i,
    {
        let b = bytes[i];
        v.push(hex_digit_exec(b / 16));
        v.push(hex_digit_exec(b % 16));
        i = i + 1;
        assert(bytes@.subrange(0, i as int).drop_last() =~= bytes@.subrange(0, i - 1));
        assert(v@ =~= hex_lower(bytes@.subrange(0, i as int)));
    }
    assert(bytes@.subrange(0, bytes.len() as int) =~= bytes@);
    string_of(&v)
}

/// `format!("{:x}", Sha256::digest(data))`.
pub fn sha256_hex(data: &[u8]) -> (r: String)
    ensures
        r@ == hex_lower(sha256_of(data@)),
{
    let d = sha256_digest(data);
    hex_lower_string(&d)
}

/// The value of a lower-case hex digit (`0`-`9`, `a`-`f`); -1 for any
/// other character.
pub open spec fn lower_hex_value(c: char) -> int {
    if '0' <= c && c <= '9' {
        c as int - '0' as int
    } else if 'a' <= c && c <= 'f' {
        c as int - 'a' as int + 10
    } else {
        -1
    }
}

proof fn lemma_hex_digit(d: u8)
    requires
        d < 16,
    ensures
        lower_hex_value(hex_digit(d)) == d as int,
{
    if d < 10 {
        assert(((48 + d) as u8) as char as int == 48 + d);
    } else {
        assert(((87 + d) as u8) as char as int == 87 + d);
    }
}

/// The hex text of bytes has two characters per byte, and each pair, read
/// as lower-case hex digits (high digit first), gives its byte back.
pub proof fn law_hex_reads_back(bytes: Seq<u8>)
    ensures
        hex_lower(bytes).len() == 2 * bytes.len(),
        forall|i: int| 0 <= i < bytes.len() ==> 16 * lower_hex_value(#[trigger] hex_lower(bytes)[2 * i])
            + lower_hex_value(hex_lower(bytes)[2 * i + 1]) == bytes[i] as int,
    decreases bytes.len(),
{
    if bytes.len() > 0 {
        let d = bytes.drop_last();
        law_hex_reads_back(d);
        let b = bytes.last();
        lemma_hex_digit(b / 16);
        lemma_hex_digit(b % 16);
        let h = hex_lower(bytes);
        assert forall|i: int| 0 <= i < bytes.len() implies 16 * lower_hex_value(#[trigger] h[2 * i])
            + lower_hex_value(h[2 * i + 1]) == bytes[i] as int by {
            if i < d.len() {
                assert(h[2 * i] == hex_lower(d)[2 * i]);
                assert(h[2 * i + 1] == hex_lower(d)[2 * i + 1]);
                assert(bytes[i] == d[i]);
            } else {
                assert(h[2 * i] == hex_digit(b / 16));
                assert(h[2 * i + 1] == hex_digit(b % 16));
            }
        }
    }
}

} // verus!
