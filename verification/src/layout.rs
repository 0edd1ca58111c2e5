//! Where a key's file lies, and how files are written.

use vstd::prelude::*;
use vstd::string::{StringExecFns, StringSliceAdditionalSpecFns};
use vstd::utf8::encode_utf8;

verus! {

/// The BLAKE3 digest of the given bytes.
pub uninterp spec fn blake3_digest(input: Seq<u8>) -> Seq<u8>;

/// `blake3::hash`, with the digest handed out as bytes: always 32 of them.
#[verifier::external_body]
pub(crate) fn key_digest(input: &[u8]) -> (r: Vec<u8>)
    ensures
        r@ == blake3_digest(input@),
        r@.len() == 32,
{
    blake3::hash(input).as_bytes().to_vec()
}

/// The lower-case hexadecimal digit for a value below sixteen.
pub open spec fn hex_char(n: u8) -> char {
    if n == 0 {
        '0'
    } else if n == 1 {
        '1'
    } else if n == 2 {
        '2'
    } else if n == 3 {
        '3'
    } else if n == 4 {
        '4'
    } else if n == 5 {
        '5'
    } else if n == 6 {
        '6'
    } else if n == 7 {
        '7'
    } else if n == 8 {
        '8'
    } else if n == 9 {
        '9'
    } else if n == 10 {
        'a'
    } else if n == 11 {
        'b'
    } else if n == 12 {
        'c'
    } else if n == 13 {
        'd'
    } else if n == 14 {
        'e'
    } else {
        'f'
    }
}

/// Two hexadecimal digits for each byte, the high half first.
pub open spec fn hex_of(bytes: Seq<u8>) -> Seq<char>
    decreases bytes.len(),
{
    if bytes.len() == 0 {
        Seq::empty()
    } else {
        hex_of(bytes.drop_last()).push(hex_char(bytes.last() / 16)).push(
            hex_char(bytes.last() % 16),
        )
    }
}

fn hex_digit(n: u8) -> (r: &'static str)
    requires
        n < 16,
    ensures
        r@ == seq![hex_char(n)],
{
    proof {
        reveal_strlit("0");
        reveal_strlit("1");
        reveal_strlit("2");
        reveal_strlit("3");
        reveal_strlit("4");
        reveal_strlit("5");
        reveal_strlit("6");
        reveal_strlit("7");
        reveal_strlit("8");
        reveal_strlit("9");
        reveal_strlit("a");
        reveal_strlit("b");
        reveal_strlit("c");
        reveal_strlit("d");
        reveal_strlit("e");
        reveal_strlit("f");
    }
    let r = match n {
        0 => "0",
        1 => "1",
        2 => "2",
        3 => "3",
        4 => "4",
        5 => "5",
        6 => "6",
        7 => "7",
        8 => "8",
        9 => "9",
        10 => "a",
        11 => "b",
        12 => "c",
        13 => "d",
        14 => "e",
        _ => "f",
    };
    assert(r@ =~= seq![hex_char(n)]);
    r
}

/// The bytes in lower-case hexadecimal.
pub fn to_hex(bytes: &[u8]) -> (r: String)
    ensures
        r@ == hex_of(bytes@),
        r@.len() == 2 * bytes@.len(),
{
    let mut out = String::new();
    let mut i: usize = 0;
    assert(bytes@.take(0) == Seq::<u8>::empty());
    while i < bytes.len()
        invariant
            i <= bytes.len(),
            out@ == hex_of(bytes@.take(i as int)),
            out@.len() == 2 * i,
        decreases bytes.len() - i,
    {
        let b = bytes[i];
        proof {
            let next = bytes@.take(i as int + 1);
            assert(next.drop_last() == bytes@.take(i as int));
            assert(next.last() == b);
        }
        let ghost before = out@;
        out.append(hex_digit(b / 16));
        out.append(hex_digit(b % 16));
        assert(out@ == before.push(hex_char(b / 16)).push(hex_char(b % 16)));
        i = i + 1;
    }
    assert(bytes@.take(bytes@.len() as int) == bytes@);
    out
}

/// The extension of every data file.
pub open spec fn data_suffix() -> Seq<char> {
    seq!['.', 'd', 'a', 't']
}

/// The directory part that holds the data files.
pub open spec fn data_dir() -> Seq<char> {
    seq!['/', 'd', 'a', 't', 'a', '/']
}

/// The name of a key's file: the first sixteen hexadecimal digits of the
/// BLAKE3 digest of the key's UTF-8 bytes, then `.dat`.
pub open spec fn file_name(key: Seq<char>) -> Seq<char> {
    hex_of(blake3_digest(encode_utf8(key)).take(8)) + data_suffix()
}

/// The path of a key's file below `directory`.
pub open spec fn file_path(directory: Seq<char>, key: Seq<char>) -> Seq<char> {
    directory + data_dir() + file_name(key)
}

/// The file name, once the key's digest is known.
pub fn filename_from_digest(digest: &[u8]) -> (r: String)
    requires
        digest@.len() >= 8,
    ensures
        r@ == hex_of(digest@.take(8)) + data_suffix(),
        r@.len() == 20,
{
    let head = vstd::slice::slice_subrange(digest, 0, 8);
    assert(head@ == digest@.take(8));
    let mut name = to_hex(head);
    proof {
        reveal_strlit(".dat");
    }
    name.append(".dat");
    assert(name@ == hex_of(digest@.take(8)) + data_suffix());
    name
}

/// The name of a key's file.
pub fn generate_filename(key: &str) -> (r: String)
    ensures
        r@ == file_name(key@),
        r@.len() == 20,
{
    let digest = key_digest(key.as_bytes());
    filename_from_digest(digest.as_slice())
}

/// The path of a key's file below `directory`.
pub fn build_file_path(directory: &str, key: &str) -> (r: String)
    ensures
        r@ == file_path(directory@, key@),
{
    let mut path = String::from_str(directory);
    proof {
        reveal_strlit("/data/");
    }
    path.append("/data/");
    let name = generate_filename(key);
    path.append(name.as_str());
    assert(path@ == file_path(directory@, key@));
    path
}

/// How a file is written.
#[derive(Debug, Clone, Copy, PartialEq, Eq, Structural)]
pub enum WriteMode {
    /// Into a sibling file that is synced and then renamed into place.
    Atomic,
    /// In place: open, truncate, write, sync.
    Direct,
    /// In place, under an exclusive advisory lock on the file.
    Locked,
}

/// The mode for the files of a directory. Locking, where asked for, goes
/// before everything. Atomic writes are never used on a network file
/// system.
pub open spec fn spec_choose_write_mode(
    use_atomic_writes: bool,
    use_file_locking: bool,
    is_network_fs: bool,
) -> WriteMode {
    if use_file_locking {
        WriteMode::Locked
    } else if use_atomic_writes && !is_network_fs {
        WriteMode::Atomic
    } else {
        WriteMode::Direct
    }
}

#[verifier::when_used_as_spec(spec_choose_write_mode)]
pub fn choose_write_mode(use_atomic_writes: bool, use_file_locking: bool, is_network_fs: bool) -> (r:
    WriteMode)
    ensures
        r == spec_choose_write_mode(use_atomic_writes, use_file_locking, is_network_fs),
{
    if use_file_locking {
        WriteMode::Locked
    } else if use_atomic_writes && !is_network_fs {
        WriteMode::Atomic
    } else {
        WriteMode::Direct
    }
}

/// File system type codes that stand for a network file system: NFS,
/// SMB and NCP.
pub open spec fn spec_is_network_fs_type(fs_type: i64) -> bool {
    fs_type == 0x6969 || fs_type == 0x517B || fs_type == 0x564C
}

#[verifier::when_used_as_spec(spec_is_network_fs_type)]
pub fn is_network_fs_type(fs_type: i64) -> (r: bool)
    ensures
        r == spec_is_network_fs_type(fs_type),
{
    fs_type == 0x6969 || fs_type == 0x517B || fs_type == 0x564C
}

} // verus!
