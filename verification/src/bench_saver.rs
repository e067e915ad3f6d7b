//! The checksums that a saved benchmark result carries: the SHA-256 digest of
//! the server's source, and the digest that signs a result line with it.

use vstd::prelude::*;
use vstd::utf8::encode_utf8;
use sha2::Digest;

verus! {

broadcast use vstd::string::group_string_axioms;

/// The SHA-256 digest of `data`.
pub uninterp spec fn sha256(data: Seq<u8>) -> Seq<u8>;

/// The SHA-256 digest of `data`, computed by `sha2::Sha256::digest`: the
/// claim is that it is `sha256` of the bytes, 32 of them.
#[verifier::external_body]
fn sha256_digest(data: &[u8]) -> (d: Vec<u8>)
    ensures
        d@ == sha256(data@),
        d@.len() == 32,
{
    sha2::Sha256::digest(data).to_vec()
}

/// The lowercase hexadecimal digit of `d`.
pub open spec fn hex_digit(d: u8) -> char {
    if d < 10 {
        ('0' as u8 + d) as char
    } else {
        ('a' as u8 + (d - 10)) as char
    }
}

/// The lowercase hexadecimal text of `bytes`, two digits to a byte, the
/// high digit first.
pub open spec fn hex(bytes: Seq<u8>) -> Seq<char>
    decreases bytes.len(),
{
    if bytes.len() == 0 {
        Seq::empty()
    } else {
        hex(bytes.drop_last()) + seq![hex_digit(bytes.last() / 16), hex_digit(bytes.last() % 16)]
    }
}

fn hex_digit_str(d: u8) -> (s: &'static str)
    requires
        d < 16,
    ensures
        s@ == seq![hex_digit(d)],
{
    proof {
        reveal_strlit("0");
        reveal_strlit("1");
        reveal_strlit("2");
        reveal_strlit("3");
        reveal_strlit("4");
        reveal_strlit("5");
        reveal_strlit("6");
        reveal_strlit("7");
        reveal_strlit("8");
        reveal_strlit("9");
        reveal_strlit("a");
        reveal_strlit("b");
        reveal_strlit("c");
        reveal_strlit("d");
        reveal_strlit("e");
        reveal_strlit("f");
    }
    match d {
        0 => "0",
        1 => "1",
        2 => "2",
        3 => "3",
        4 => "4",
        5 => "5",
        6 => "6",
        7 => "7",
        8 => "8",
        9 => "9",
        10 => "a",
        11 => "b",
        12 => "c",
        13 => "d",
        14 => "e",
        _ => "f",
    }
}

/// The lowercase hexadecimal text of `bytes`.
pub fn to_hex(bytes: &[u8]) -> (s: String)
    ensures
        s@ == hex(bytes@),
{
    let mut s = String::new();
    let mut i: usize = 0;
    while i < bytes.len()
        invariant
            i <= bytes@.len(),
            s@ == hex(bytes@.subrange(0, i as int)),
        decreases bytes@.len() - i,
    {
        let b = bytes[i];
        s.append(hex_digit_str(b / 16));
        s.append(hex_digit_str(b % 16));
        proof {
            let p = bytes@.subrange(0, i + 1);
            assert(p.drop_last() =~= bytes@.subrange(0, i as int));
            assert(p.last() == b);
        }
        i = i + 1;
    }
    proof {
        assert(bytes@.subrange(0, i as int) =~= bytes@);
    }
    s
}

/// The checksum of the server's source text: the hexadecimal SHA-256 digest
/// of its UTF-8 bytes.
pub fn source_checksum(source: &str) -> (h: String)
    ensures
        h@ == hex(sha256(encode_utf8(source@))),
{
    let d = sha256_digest(source.as_bytes());
    to_hex(d.as_slice())
}

/// The text that a saved result holds: the result line, a space, the
/// hexadecimal SHA-256 digest of the checksum followed by the result line,
/// and a line end.
pub open spec fn signed_line_spec(checksum: Seq<char>, line: Seq<char>) -> Seq<char> {
    line + " "@ + hex(sha256(encode_utf8(checksum + line))) + "\n"@
}

/// The text that a saved result holds for the result line `line`, signed
/// with `checksum`.
pub fn signed_line(checksum: &str, line: &str) -> (r: String)
    ensures
        r@ == signed_line_spec(checksum@, line@),
{
    let mut data = String::new();
    data.append(checksum);
    data.append(line);
    let d = sha256_digest(data.as_str().as_bytes());
    let digest_hex = to_hex(d.as_slice());
    let mut r = String::new();
    r.append(line);
    r.append(" ");
    r.append(digest_hex.as_str());
    r.append("\n");
    proof {
        assert(data@ =~= checksum@ + line@);
        assert(r@ =~= signed_line_spec(checksum@, line@));
    }
    r
}

} // verus!
