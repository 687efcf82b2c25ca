//! The stable fingerprint of a command: the first eight lower-case hex
//! characters of the SHA-256 digest of the command text. The digest itself
//! comes from an outside implementation; the hex rendering and truncation
//! are verified here.
use vstd::prelude::*;
use vstd::utf8::encode_utf8;
use sha2::Digest;

verus! {

/// The SHA-256 digest of a byte sequence, named but not written out: the
/// outside implementation is relied on for its value.
pub uninterp spec fn sha256_of(bytes: Seq<u8>) -> Seq<u8>;

/// Relies on `sha2::Sha256::digest`: the digest depends on the input bytes
/// alone, and is 32 bytes long.
#[verifier::external_body]
fn sha256_digest(data: &[u8]) -> (r: Vec<u8>)
    ensures
        r@ == sha256_of(data@),
        r@.len() == 32,
{
    sha2::Sha256::digest(data).to_vec()
}

/// The lower-case hex character of a value below sixteen.
pub open spec fn hex_char(d: int) -> char {
    if d == 0 {
        '0'
    } else if d == 1 {
        '1'
    } else if d == 2 {
        '2'
    } else if d == 3 {
        '3'
    } else if d == 4 {
        '4'
    } else if d == 5 {
        '5'
    } else if d == 6 {
        '6'
    } else if d == 7 {
        '7'
    } else if d == 8 {
        '8'
    } else if d == 9 {
        '9'
    } else if d == 10 {
        'a'
    } else if d == 11 {
        'b'
    } else if d == 12 {
        'c'
    } else if d == 13 {
        'd'
    } else if d == 14 {
        'e'
    } else {
        'f'
    }
}

/// The lower-case hex rendering of a byte sequence, two characters per byte.
pub open spec fn hex_of(bytes: Seq<u8>) -> Seq<char>
    decreases bytes.len(),
{
    if bytes.len() == 0 {
        Seq::empty()
    } else {
        hex_of(bytes.drop_last()) + seq![
            hex_char((bytes.last() as int) / 16),
            hex_char((bytes.last() as int) % 16),
        ]
    }
}

/// The fingerprint of a command text: the first eight hex characters of the
/// SHA-256 digest of its UTF-8 encoding.
pub open spec fn command_hash(text: Seq<char>) -> Seq<char> {
    hex_of(sha256_of(encode_utf8(text))).take(8)
}

/// A lower-case hex digit character.
pub open spec fn is_hex_char(c: char) -> bool {
    (('0' as u32) <= (c as u32) && (c as u32) <= ('9' as u32)) || (('a' as u32) <= (c as u32) && (c
        as u32) <= ('f' as u32))
}

/// Whatever its argument, `hex_char` yields a lower-case hex digit.
proof fn lemma_hex_char_is_hex(d: int)
    ensures
        is_hex_char(hex_char(d)),
{
}

/// Every character of a hex rendering is a lower-case hex digit.
pub proof fn lemma_hex_of_chars(bytes: Seq<u8>)
    ensures
        forall|i: int|
            0 <= i < hex_of(bytes).len() ==> is_hex_char(#[trigger] hex_of(bytes)[i]),
    decreases bytes.len(),
{
    if bytes.len() > 0 {
        lemma_hex_of_chars(bytes.drop_last());
        lemma_hex_char_is_hex((bytes.last() as int) / 16);
        lemma_hex_char_is_hex((bytes.last() as int) % 16);
        let left = hex_of(bytes.drop_last());
        assert forall|i: int|
            0 <= i < hex_of(bytes).len() implies is_hex_char(#[trigger] hex_of(bytes)[i]) by {
            if i < left.len() {
                assert(hex_of(bytes)[i] == left[i]);
            } else if i == left.len() {
                assert(hex_of(bytes)[i] == hex_char((bytes.last() as int) / 16));
            } else {
                assert(hex_of(bytes)[i] == hex_char((bytes.last() as int) % 16));
            }
        }
    }
}

/// The string of one hex character.
fn hex_char_str(d: u8) -> (r: &'static str)
    requires
        d < 16,
    ensures
        r@ == seq![hex_char(d as int)],
{
    proof {
        reveal_strlit("0");
        reveal_strlit("1");
        reveal_strlit("2");
        reveal_strlit("3");
        reveal_strlit("4");
        reveal_strlit("5");
        reveal_strlit("6");
        reveal_strlit("7");
        reveal_strlit("8");
        reveal_strlit("9");
        reveal_strlit("a");
        reveal_strlit("b");
        reveal_strlit("c");
        reveal_strlit("d");
        reveal_strlit("e");
        reveal_strlit("f");
    }
    let r = if d == 0 {
        "0"
    } else if d == 1 {
        "1"
    } else if d == 2 {
        "2"
    } else if d == 3 {
        "3"
    } else if d == 4 {
        "4"
    } else if d == 5 {
        "5"
    } else if d == 6 {
        "6"
    } else if d == 7 {
        "7"
    } else if d == 8 {
        "8"
    } else if d == 9 {
        "9"
    } else if d == 10 {
        "a"
    } else if d == 11 {
        "b"
    } else if d == 12 {
        "c"
    } else if d == 13 {
        "d"
    } else if d == 14 {
        "e"
    } else {
        "f"
    };
    proof {
        assert(r@ =~= seq![hex_char(d as int)]);
    }
    r
}

/// Renders a byte sequence as lower-case hex, two characters per byte.
pub fn bytes_to_hex(data: &Vec<u8>) -> (r: String)
    ensures
        r@ == hex_of(data@),
{
    let mut r = String::new();
    let mut i: usize = 0;
    proof {
        assert(data@.take(0) =~= Seq::<u8>::empty());
    }
    while i < data.len()
        invariant
            i <= data@.len(),
            r@ =~= hex_of(data@.take(i as int)),
        decreases data@.len() - i,
    {
        let b = data[i];
        let hi = hex_char_str(b / 16);
        let lo = hex_char_str(b % 16);
        r.append(hi);
        r.append(lo);
        proof {
            assert(data@.take(i as int + 1).drop_last() =~= data@.take(i as int));
            assert(data@.take(i as int + 1).last() == data@[i as int]);
            assert(r@ =~= hex_of(data@.take(i as int + 1)));
        }
        i = i + 1;
    }
    proof {
        assert(data@.take(data@.len() as int) =~= data@);
    }
    r
}

/// Computes the fingerprint of a command text: eight lower-case hex
/// characters, a deterministic function of the text alone.
pub fn generate_hash(command: &str) -> (r: String)
    ensures
        r@ == command_hash(command@),
        r@.len() == 8,
        forall|i: int| 0 <= i < r@.len() ==> is_hex_char(#[trigger] r@[i]),
{
    let bytes = command.as_bytes_vec();
    let digest = sha256_digest(bytes.as_slice());
    let hex = bytes_to_hex(&digest);
    proof {
        lemma_hex_len(digest@);
        lemma_hex_of_chars(digest@);
    }
    let short = hex.as_str().substring_char(0, 8);
    proof {
        assert(short@ =~= command_hash(command@));
        assert forall|i: int| 0 <= i < short@.len() implies is_hex_char(#[trigger] short@[i]) by {
            assert(short@[i] == hex_of(digest@)[i]);
        }
    }
    short.to_owned()
}

/// A hex rendering is twice as long as its input.
proof fn lemma_hex_len(bytes: Seq<u8>)
    ensures
        hex_of(bytes).len() == 2 * bytes.len(),
    decreases bytes.len(),
{
    if bytes.len() > 0 {
        lemma_hex_len(bytes.drop_last());
    }
}

} // verus!
