//! The stored form of a list of directories: a version number in four bytes,
//! the number of entries in eight, then every entry as its path (the length
//! in eight bytes, then the UTF-8 text), its rank and the time of its last
//! visit, eight bytes each. The rank stands as an IEEE 754 double that counts
//! visits. Everything stands lowest byte first.

use crate::dir::{views, Dir, DirList, DirView};
use crate::ieee::{
    bits_of_rank, is_exact, law_read_rank_is_exact, law_small_rank_is_exact, law_stored_is_exact,
    rank_from_bits, rank_of_bits, rank_to_bits, stored, EXACT_RANKS,
};
use crate::text::{decimal, decimal_string, joined};
use crate::wire::{get_str, get_u32, get_u64, put_str, put_u32, put_u64, size_u32, text_bytes};
use std::borrow::Cow;
use vstd::bytes::*;
use vstd::prelude::*;
use vstd::slice::*;
use vstd::string::*;
use vstd::utf8::*;

verus! {

/// The version of the stored form that this library reads and writes.
pub const VERSION: u32 = 3;

/// The longest input that is decoded, in bytes.
pub const MAX_SIZE: usize = 33_554_432;

/// Why stored bytes were not decoded.
#[derive(Clone, Copy, Debug, PartialEq, Eq, Structural)]
pub enum DecodeError {
    /// The bytes end before the version does, or what follows the version is
    /// not a list of entries.
    Corrupted,
    /// The bytes were written in another version of the stored form.
    UnsupportedVersion { found: u32, supported: u32 },
    /// There are more than `MAX_SIZE` bytes.
    TooLarge,
}

/// Why a list was not encoded.
#[derive(Clone, Copy, Debug, PartialEq, Eq, Structural)]
pub enum EncodeError {
    /// The stored form would be longer than a buffer can be.
    TooLarge,
}

impl DecodeError {
    /// The message for a user, in one line.
    pub open spec fn text(self) -> Seq<char> {
        match self {
            DecodeError::Corrupted => "could not deserialize database: corrupted data"@,
            DecodeError::UnsupportedVersion { found, supported } =>
                "could not deserialize database: unsupported version (got "@ + decimal(
                    found as nat,
                ) + ", supports "@ + decimal(supported as nat) + ")"@,
            DecodeError::TooLarge => "could not deserialize database: too many bytes"@,
        }
    }

    /// The message for a user, in one line.
    pub fn message(&self) -> (line: String)
        ensures
            line@ == self.text(),
    {
        match self {
            DecodeError::Corrupted => String::from_str(
                "could not deserialize database: corrupted data",
            ),
            DecodeError::UnsupportedVersion { found, supported } => {
                let got = decimal_string(*found as u64);
                let supports = decimal_string(*supported as u64);
                let mut line = joined(
                    "could not deserialize database: unsupported version (got ",
                    got.as_str(),
                );
                line.append(", supports ");
                line.append(supports.as_str());
                line.append(")");
                assert(line@ =~= self.text());
                line
            },
            DecodeError::TooLarge => String::from_str(
                "could not deserialize database: too many bytes",
            ),
        }
    }
}

impl EncodeError {
    /// The message for a user, in one line.
    pub open spec fn text(self) -> Seq<char> {
        "could not serialize database: too many bytes"@
    }

    /// The message for a user, in one line.
    pub fn message(&self) -> (line: String)
        ensures
            line@ == self.text(),
    {
        String::from_str("could not serialize database: too many bytes")
    }
}

/// The bytes of one entry.
pub open spec fn dir_bytes(dir: DirView) -> Seq<u8> {
    text_bytes(dir.path) + spec_u64_to_le_bytes(bits_of_rank(dir.rank)) + spec_u64_to_le_bytes(
        dir.last_accessed,
    )
}

/// The bytes of the entries, one after the other.
pub open spec fn dirs_bytes(dirs: Seq<DirView>) -> Seq<u8>
    decreases dirs.len(),
{
    if dirs.len() == 0 {
        Seq::empty()
    } else {
        dir_bytes(dirs.first()) + dirs_bytes(dirs.drop_first())
    }
}

/// The stored form of a list.
pub open spec fn encoding(dirs: Seq<DirView>) -> Seq<u8> {
    spec_u32_to_le_bytes(VERSION) + spec_u64_to_le_bytes(dirs.len() as u64) + dirs_bytes(dirs)
}

/// Whether the lengths in a list can be written in eight bytes each.
pub open spec fn encodable(dirs: Seq<DirView>) -> bool {
    &&& dirs.len() <= u64::MAX
    &&& forall|i: int| 0 <= i < dirs.len() ==> encode_utf8(#[trigger] dirs[i].path).len() <= u64::MAX
}

/// Whether every rank in a list comes back from its double as it is.
pub open spec fn exact_ranks(dirs: Seq<DirView>) -> bool {
    forall|i: int| 0 <= i < dirs.len() ==> is_exact(#[trigger] dirs[i].rank)
}

/// Whether every rank in a list has no more digits than a double holds.
pub open spec fn small_ranks(dirs: Seq<DirView>) -> bool {
    forall|i: int| 0 <= i < dirs.len() ==> (#[trigger] dirs[i]).rank < EXACT_RANKS
}

/// An entry as it is read back after it was written: with its rank as the
/// double holds it.
pub open spec fn dir_as_stored(dir: DirView) -> DirView {
    DirView { path: dir.path, rank: stored(dir.rank), last_accessed: dir.last_accessed }
}

/// A list as it is read back after it was written.
pub open spec fn as_stored(dirs: Seq<DirView>) -> Seq<DirView> {
    Seq::new(dirs.len(), |i: int| dir_as_stored(dirs[i]))
}

/// The text at the start of `bytes` and the number of bytes it takes.
pub open spec fn parse_text(bytes: Seq<u8>) -> Option<(Seq<char>, int)> {
    if bytes.len() < 8 {
        None
    } else {
        let end = 8 + spec_u64_from_le_bytes(bytes.subrange(0, 8));
        if bytes.len() < end || !valid_utf8(bytes.subrange(8, end)) {
            None
        } else {
            Some((decode_utf8(bytes.subrange(8, end)), end))
        }
    }
}

/// The entry at the start of `bytes` and the number of bytes it takes.
pub open spec fn parse_dir(bytes: Seq<u8>) -> Option<(DirView, int)> {
    match parse_text(bytes) {
        None => None,
        Some((path, end)) => if bytes.len() < end + 16 {
            None
        } else {
            Some(
                (
                    DirView {
                        path,
                        rank: rank_of_bits(spec_u64_from_le_bytes(bytes.subrange(end, end + 8))),
                        last_accessed: spec_u64_from_le_bytes(bytes.subrange(end + 8, end + 16)),
                    },
                    end + 16,
                ),
            )
        },
    }
}

/// The `count` entries that `bytes` are made of, if they are that and
/// nothing more.
pub open spec fn parse_dirs(bytes: Seq<u8>, count: nat) -> Option<Seq<DirView>>
    decreases count,
{
    if count == 0 {
        if bytes.len() == 0 {
            Some(Seq::empty())
        } else {
            None
        }
    } else {
        match parse_dir(bytes) {
            None => None,
            Some((dir, end)) => match parse_dirs(bytes.skip(end), (count - 1) as nat) {
                None => None,
                Some(rest) => Some(seq![dir] + rest),
            },
        }
    }
}

/// What stored bytes decode to.
pub open spec fn decoding(bytes: Seq<u8>) -> Result<Seq<DirView>, DecodeError> {
    if bytes.len() < 4 {
        Err(DecodeError::Corrupted)
    } else if spec_u32_from_le_bytes(bytes.subrange(0, 4)) != VERSION {
        Err(
            DecodeError::UnsupportedVersion {
                found: spec_u32_from_le_bytes(bytes.subrange(0, 4)),
                supported: VERSION,
            },
        )
    } else if bytes.len() > MAX_SIZE {
        Err(DecodeError::TooLarge)
    } else if bytes.len() < 12 {
        Err(DecodeError::Corrupted)
    } else {
        match parse_dirs(bytes.skip(12), spec_u64_from_le_bytes(bytes.subrange(4, 12)) as nat) {
            None => Err(DecodeError::Corrupted),
            Some(dirs) => Ok(dirs),
        }
    }
}

/// The entries parsed so far, followed by what the rest parses to.
pub open spec fn continued(parsed: Seq<DirView>, rest: Option<Seq<DirView>>) -> Option<
    Seq<DirView>,
> {
    match rest {
        None => None,
        Some(more) => Some(parsed + more),
    }
}

/// The bytes of two lists, one after the other, are the bytes of the lists
/// joined.
pub proof fn lemma_dirs_bytes_concat(front: Seq<DirView>, back: Seq<DirView>)
    ensures
        dirs_bytes(front + back) == dirs_bytes(front) + dirs_bytes(back),
    decreases front.len(),
{
    if front.len() == 0 {
        assert(front + back =~= back);
        assert(dirs_bytes(front) + dirs_bytes(back) =~= dirs_bytes(back));
    } else {
        assert((front + back).drop_first() =~= front.drop_first() + back);
        lemma_dirs_bytes_concat(front.drop_first(), back);
        assert(dirs_bytes(front + back) =~= dirs_bytes(front) + dirs_bytes(back));
    }
}

/// The bytes of the first `count + 1` entries are those of the first `count`
/// followed by those of the next entry.
pub proof fn lemma_dirs_bytes_take(dirs: Seq<DirView>, count: int)
    requires
        0 <= count < dirs.len(),
    ensures
        dirs_bytes(dirs.take(count + 1)) == dirs_bytes(dirs.take(count)) + dir_bytes(dirs[count]),
        dirs_bytes(dirs.take(count + 1)).len() <= dirs_bytes(dirs).len(),
{
    let one = seq![dirs[count]];
    assert(dirs.take(count + 1) =~= dirs.take(count) + one);
    lemma_dirs_bytes_concat(dirs.take(count), one);
    assert(one.drop_first() =~= Seq::<DirView>::empty());
    assert(dirs_bytes(one.drop_first()) =~= Seq::<u8>::empty());
    assert(dirs_bytes(one) =~= dir_bytes(dirs[count]));
    assert(dirs =~= dirs.take(count + 1) + dirs.skip(count + 1));
    lemma_dirs_bytes_concat(dirs.take(count + 1), dirs.skip(count + 1));
}

/// An entry takes twenty-four bytes and those of its path.
pub proof fn lemma_dir_bytes_len(dir: DirView)
    ensures
        dir_bytes(dir).len() == 24 + encode_utf8(dir.path).len(),
{
    lemma_auto_spec_u64_to_from_le_bytes();
}

/// A text is read back from its bytes, whatever follows them.
pub proof fn lemma_parse_text_of_bytes(text: Seq<char>, rest: Seq<u8>)
    requires
        encode_utf8(text).len() <= u64::MAX,
    ensures
        parse_text(text_bytes(text) + rest) == Some((text, text_bytes(text).len() as int)),
{
    lemma_auto_spec_u64_to_from_le_bytes();
    encode_utf8_valid_utf8(text);
    encode_utf8_decode_utf8(text);
    let utf8 = encode_utf8(text);
    let head = spec_u64_to_le_bytes(utf8.len() as u64);
    let bytes = text_bytes(text) + rest;
    assert(bytes.subrange(0, 8) =~= head);
    assert(bytes.subrange(8, 8 + utf8.len() as int) =~= utf8);
}

/// An entry is read back from its bytes, whatever follows them.
pub proof fn lemma_parse_dir_of_bytes(dir: DirView, rest: Seq<u8>)
    requires
        encode_utf8(dir.path).len() <= u64::MAX,
    ensures
        parse_dir(dir_bytes(dir) + rest) == Some((dir_as_stored(dir), dir_bytes(dir).len() as int)),
{
    lemma_auto_spec_u64_to_from_le_bytes();
    let rank = spec_u64_to_le_bytes(bits_of_rank(dir.rank));
    let time = spec_u64_to_le_bytes(dir.last_accessed);
    let bytes = dir_bytes(dir) + rest;
    let end = text_bytes(dir.path).len() as int;
    assert(bytes =~= text_bytes(dir.path) + (rank + time + rest));
    lemma_parse_text_of_bytes(dir.path, rank + time + rest);
    assert(bytes.subrange(end, end + 8) =~= rank);
    assert(bytes.subrange(end + 8, end + 16) =~= time);
}

/// The entries are read back from their bytes.
pub proof fn lemma_parse_dirs_of_bytes(dirs: Seq<DirView>)
    requires
        encodable(dirs),
    ensures
        parse_dirs(dirs_bytes(dirs), dirs.len()) == Some(as_stored(dirs)),
    decreases dirs.len(),
{
    if dirs.len() == 0 {
        assert(as_stored(dirs) =~= Seq::<DirView>::empty());
    } else {
        let first = dirs.first();
        let others = dirs.drop_first();
        assert(encodable(others)) by {
            assert forall|i: int| 0 <= i < others.len() implies encode_utf8(
                #[trigger] others[i].path,
            ).len() <= u64::MAX by {
                assert(others[i] == dirs[i + 1]);
            }
        }
        lemma_parse_dir_of_bytes(first, dirs_bytes(others));
        lemma_parse_dirs_of_bytes(others);
        assert(dirs_bytes(dirs).skip(dir_bytes(first).len() as int) =~= dirs_bytes(others));
        assert(seq![dir_as_stored(first)] + as_stored(others) =~= as_stored(dirs));
    }
}

/// The bytes of a list are at least twenty-four for every entry, and at
/// least those of any one entry.
pub proof fn lemma_dirs_bytes_len(dirs: Seq<DirView>)
    ensures
        dirs_bytes(dirs).len() >= 24 * dirs.len(),
        forall|i: int|
            0 <= i < dirs.len() ==> dirs_bytes(dirs).len() >= 24 + encode_utf8(
                #[trigger] dirs[i].path,
            ).len(),
    decreases dirs.len(),
{
    if dirs.len() > 0 {
        let others = dirs.drop_first();
        lemma_dirs_bytes_len(others);
        lemma_dir_bytes_len(dirs.first());
        assert forall|i: int| 0 <= i < dirs.len() implies dirs_bytes(dirs).len() >= 24
            + encode_utf8(#[trigger] dirs[i].path).len() by {
            if i > 0 {
                assert(dirs[i] == others[i - 1]);
            }
        }
    }
}

/// Decoding undoes encoding: a list whose stored form is within the size
/// that is decoded comes back with every path and time stamp, in the same
/// order, and with every rank as its double holds it. That is the rank
/// itself wherever it comes back from its double as it is; so a list of such
/// ranks comes back as it was.
pub proof fn law_decoding_of_encoding(dirs: Seq<DirView>)
    requires
        encoding(dirs).len() <= MAX_SIZE,
    ensures
        decoding(encoding(dirs)) == Ok::<Seq<DirView>, DecodeError>(as_stored(dirs)),
        exact_ranks(dirs) ==> decoding(encoding(dirs)) == Ok::<Seq<DirView>, DecodeError>(dirs),
{
    lemma_auto_spec_u32_to_from_le_bytes();
    lemma_auto_spec_u64_to_from_le_bytes();
    lemma_dirs_bytes_len(dirs);
    assert(encodable(dirs));
    lemma_parse_dirs_of_bytes(dirs);
    let bytes = encoding(dirs);
    assert(bytes.subrange(0, 4) =~= spec_u32_to_le_bytes(VERSION));
    assert(bytes.subrange(4, 12) =~= spec_u64_to_le_bytes(dirs.len() as u64));
    assert(bytes.skip(12) =~= dirs_bytes(dirs));
    if exact_ranks(dirs) {
        assert(as_stored(dirs) =~= dirs);
    }
}

/// A list that was read back is a list of ranks that come back from their
/// doubles as they are: storing rounds a rank once and never again.
pub proof fn law_stored_list_is_exact(dirs: Seq<DirView>)
    ensures
        exact_ranks(as_stored(dirs)),
{
    assert forall|i: int| 0 <= i < as_stored(dirs).len() implies is_exact(
        #[trigger] as_stored(dirs)[i].rank,
    ) by {
        law_stored_is_exact(dirs[i].rank);
    }
}

/// A list whose ranks have no more digits than a double holds is a list of
/// ranks that come back from their doubles as they are.
pub proof fn law_small_ranks_are_exact(dirs: Seq<DirView>)
    requires
        small_ranks(dirs),
    ensures
        exact_ranks(dirs),
{
    assert forall|i: int| 0 <= i < dirs.len() implies is_exact(#[trigger] dirs[i].rank) by {
        law_small_rank_is_exact(dirs[i].rank);
    }
}

/// Every rank of the entries that are read comes back from its double as it
/// is, or is the highest rank.
pub proof fn lemma_parsed_ranks(bytes: Seq<u8>, count: nat)
    requires
        parse_dirs(bytes, count) is Some,
    ensures
        forall|i: int|
            0 <= i < parse_dirs(bytes, count).unwrap().len() ==> {
                let rank = (#[trigger] parse_dirs(bytes, count).unwrap()[i]).rank;
                rank == u64::MAX || is_exact(rank)
            },
    decreases count,
{
    let dirs = parse_dirs(bytes, count).unwrap();
    if count > 0 {
        let (dir, end) = parse_dir(bytes).unwrap();
        let others = parse_dirs(bytes.skip(end), (count - 1) as nat).unwrap();
        lemma_parsed_ranks(bytes.skip(end), (count - 1) as nat);
        let text_end = parse_text(bytes).unwrap().1;
        let bits = spec_u64_from_le_bytes(bytes.subrange(text_end, text_end + 8));
        if rank_of_bits(bits) != u64::MAX {
            law_read_rank_is_exact(bits);
        }
        assert forall|i: int| 0 <= i < dirs.len() implies {
            let rank = (#[trigger] dirs[i]).rank;
            rank == u64::MAX || is_exact(rank)
        } by {
            if i > 0 {
                assert(dirs[i] == others[i - 1]);
            }
        }
    }
}

/// Every rank of a list that was decoded comes back from its double as it
/// is, but for the highest rank, which stands for every double that is more
/// than a rank can be. So a decoded list without that rank, encoded and
/// decoded again, is the same list.
pub proof fn law_decoded_ranks(bytes: Seq<u8>)
    requires
        decoding(bytes) is Ok,
    ensures
        forall|i: int|
            0 <= i < decoding(bytes).unwrap().len() ==> {
                let rank = (#[trigger] decoding(bytes).unwrap()[i]).rank;
                rank == u64::MAX || is_exact(rank)
            },
{
    lemma_parsed_ranks(bytes.skip(12), spec_u64_from_le_bytes(bytes.subrange(4, 12)) as nat);
}

/// Bytes that start with another version than `VERSION` are refused with
/// that version, whatever follows it: no list comes out of them.
pub proof fn law_version_guard(version: u32, rest: Seq<u8>)
    requires
        version != VERSION,
    ensures
        decoding(spec_u32_to_le_bytes(version) + rest) == Err::<Seq<DirView>, DecodeError>(
            DecodeError::UnsupportedVersion { found: version, supported: VERSION },
        ),
{
    lemma_auto_spec_u32_to_from_le_bytes();
    let bytes = spec_u32_to_le_bytes(version) + rest;
    assert(bytes.subrange(0, 4) =~= spec_u32_to_le_bytes(version));
}

/// Bytes that end before the version does are refused as corrupted.
pub proof fn law_truncation_guard(bytes: Seq<u8>)
    requires
        bytes.len() < 4,
    ensures
        decoding(bytes) == Err::<Seq<DirView>, DecodeError>(DecodeError::Corrupted),
{
}

/// Turns what the serializer answered into this library's own result.
/// Writing into a vector does not fail, so the error is never seen.
fn settled(done: Result<(), bincode::Error>) -> (r: Result<(), EncodeError>)
    ensures
        r is Ok <==> done is Ok,
{
    match done {
        Ok(()) => Ok(()),
        Err(_) => Err(EncodeError::TooLarge),
    }
}

/// Turns the bytes that a string slice is made of back into its text.
proof fn lemma_text_of_bytes(text: &str, bytes: Seq<u8>)
    requires
        text.spec_bytes() == bytes,
    ensures
        valid_utf8(bytes),
        decode_utf8(bytes) == text@,
{
    encode_utf8_valid_utf8(text@);
    encode_utf8_decode_utf8(text@);
}

/// Reads the text that starts at `start`, and says where it ends.
fn read_text<'a>(bytes: &'a [u8], start: usize) -> (found: Option<(&'a str, usize)>)
    requires
        start <= bytes@.len(),
    ensures
        match parse_text(bytes@.skip(start as int)) {
            None => found is None,
            Some((text, used)) => found is Some && found.unwrap().0@ == text && found.unwrap().1 == start
                + used && found.unwrap().1 <= bytes@.len(),
        },
{
    let total: usize = bytes.len();
    let ghost rest = bytes@.skip(start as int);
    if total - start < 8 {
        return None;
    }
    let head = slice_subrange(bytes, start, start + 8);
    assert(head@ =~= rest.subrange(0, 8));
    let len: u64 = match get_u64(head) {
        Ok(len) => len,
        Err(_) => {
            return None;
        },
    };
    if len > (total - start - 8) as u64 {
        return None;
    }
    let end: usize = start + 8 + len as usize;
    let framed = slice_subrange(bytes, start, end);
    assert(framed@.subrange(0, 8) =~= head@);
    assert(framed@.skip(8) =~= rest.subrange(8, 8 + len));
    match get_str(framed) {
        Ok(text) => {
            proof {
                lemma_text_of_bytes(text, rest.subrange(8, 8 + len));
            }
            Some((text, end))
        },
        Err(_) => None,
    }
}

/// Reads the entry that starts at `start`, and says where it ends.
fn read_dir<'a>(bytes: &'a [u8], start: usize) -> (found: Option<(Dir<'a>, usize)>)
    requires
        start <= bytes@.len(),
    ensures
        match parse_dir(bytes@.skip(start as int)) {
            None => found is None,
            Some((dir, used)) => found is Some && found.unwrap().0@ == dir && found.unwrap().1 == start + used
                && found.unwrap().1 <= bytes@.len() && used >= 24,
        },
        found is Some ==> found.unwrap().0.path is Borrowed,
{
    let total: usize = bytes.len();
    let ghost rest = bytes@.skip(start as int);
    let (text, end) = match read_text(bytes, start) {
        Some(found) => found,
        None => {
            return None;
        },
    };
    if total - end < 16 {
        return None;
    }
    let ghost used = end - start;
    let rank_bytes = slice_subrange(bytes, end, end + 8);
    let time_bytes = slice_subrange(bytes, end + 8, end + 16);
    assert(rank_bytes@ =~= rest.subrange(used, used + 8));
    assert(time_bytes@ =~= rest.subrange(used + 8, used + 16));
    let rank: u64 = match get_u64(rank_bytes) {
        Ok(bits) => rank_from_bits(bits),
        Err(_) => {
            return None;
        },
    };
    let last_accessed: u64 = match get_u64(time_bytes) {
        Ok(time) => time,
        Err(_) => {
            return None;
        },
    };
    Some((Dir { path: Cow::Borrowed(text), rank, last_accessed }, end + 16))
}

impl<'a> DirList<'a> {
    /// The stored form of the list, in a buffer of exactly its size.
    ///
    /// Fails only where that size is more than a buffer can have.
    pub fn to_bytes(&self) -> (bytes: Result<Vec<u8>, EncodeError>)
        ensures
            bytes is Ok <==> encoding(self@).len() <= usize::MAX,
            bytes is Ok ==> bytes->Ok_0@ == encoding(self@),
    {
        proof {
            lemma_auto_spec_u32_to_from_le_bytes();
            lemma_auto_spec_u64_to_from_le_bytes();
        }
        let version_size: u64 = match size_u32(VERSION) {
            Ok(size) => size,
            Err(_) => {
                return Err(EncodeError::TooLarge);
            },
        };
        let count: usize = self.0.len();
        let mut size: usize = version_size as usize + 8;
        let mut i: usize = 0;
        assert(self@.take(0) =~= Seq::<DirView>::empty());
        while i < count
            invariant
                count == self.0.len(),
                i <= count,
                size == 12 + dirs_bytes(self@.take(i as int)).len(),
            decreases count - i,
        {
            let path_len: usize = self.0[i].path_str().as_bytes().len();
            proof {
                lemma_auto_spec_u32_to_from_le_bytes();
                lemma_auto_spec_u64_to_from_le_bytes();
                lemma_dirs_bytes_take(self@, i as int);
                lemma_dir_bytes_len(self@[i as int]);
                assert(encoding(self@).len() == 12 + dirs_bytes(self@).len());
            }
            let entry: usize = match path_len.checked_add(24) {
                Some(entry) => entry,
                None => {
                    return Err(EncodeError::TooLarge);
                },
            };
            size = match size.checked_add(entry) {
                Some(size) => size,
                None => {
                    return Err(EncodeError::TooLarge);
                },
            };
            i += 1;
        }
        assert(self@.take(count as int) =~= self@);

        let mut buffer: Vec<u8> = Vec::with_capacity(size);
        settled(put_u32(&mut buffer, VERSION))?;
        settled(put_u64(&mut buffer, count as u64))?;
        assert(buffer@ =~= spec_u32_to_le_bytes(VERSION) + spec_u64_to_le_bytes(count as u64));
        let mut i: usize = 0;
        while i < count
            invariant
                count == self.0.len(),
                i <= count,
                encoding(self@).len() <= usize::MAX,
                buffer@ == spec_u32_to_le_bytes(VERSION) + spec_u64_to_le_bytes(count as u64)
                    + dirs_bytes(self@.take(i as int)),
            decreases count - i,
        {
            let dir = &self.0[i];
            let ghost before = buffer@;
            settled(put_str(&mut buffer, dir.path_str()))?;
            settled(put_u64(&mut buffer, rank_to_bits(dir.rank)))?;
            settled(put_u64(&mut buffer, dir.last_accessed))?;
            proof {
                lemma_dirs_bytes_take(self@, i as int);
                assert(buffer@ =~= before + dir_bytes(self@[i as int]));
                assert(buffer@ =~= spec_u32_to_le_bytes(VERSION) + spec_u64_to_le_bytes(
                    count as u64,
                ) + dirs_bytes(self@.take(i + 1)));
            }
            i += 1;
        }
        assert(self@.take(count as int) =~= self@);
        Ok(buffer)
    }

    /// The list that stored bytes hold; its paths are borrowed from `bytes`.
    ///
    /// Fails where the bytes end before the version does, where the version
    /// is another than `VERSION`, where there are more than `MAX_SIZE` bytes,
    /// and where what follows the version is not the stored form of a list.
    pub fn from_bytes(bytes: &'a [u8]) -> (list: Result<DirList<'a>, DecodeError>)
        ensures
            match decoding(bytes@) {
                Ok(dirs) => list is Ok && list->Ok_0@ == dirs,
                Err(error) => list == Err::<DirList<'a>, DecodeError>(error),
            },
            list is Ok ==> forall|i: int|
                0 <= i < list->Ok_0.0@.len() ==> (#[trigger] list->Ok_0.0@[i]).path is Borrowed,
    {
        let version_size: usize = match size_u32(VERSION) {
            Ok(size) => size as usize,
            Err(_) => {
                return Err(DecodeError::Corrupted);
            },
        };
        let total: usize = bytes.len();
        if total < version_size {
            return Err(DecodeError::Corrupted);
        }
        let version: u32 = match get_u32(slice_subrange(bytes, 0, version_size)) {
            Ok(version) => version,
            Err(_) => {
                return Err(DecodeError::Corrupted);
            },
        };
        if version != VERSION {
            return Err(DecodeError::UnsupportedVersion { found: version, supported: VERSION });
        }
        if total > MAX_SIZE {
            return Err(DecodeError::TooLarge);
        }
        if total - version_size < 8 {
            return Err(DecodeError::Corrupted);
        }
        let count: u64 = match get_u64(slice_subrange(bytes, version_size, version_size + 8)) {
            Ok(count) => count,
            Err(_) => {
                return Err(DecodeError::Corrupted);
            },
        };
        let mut dirs: Vec<Dir<'a>> = Vec::new();
        let mut at: usize = version_size + 8;
        let mut i: u64 = 0;
        assert(views(dirs@) =~= Seq::<DirView>::empty());
        assert(continued(views(dirs@), parse_dirs(bytes@.skip(12), count as nat)) == parse_dirs(
            bytes@.skip(12),
            count as nat,
        )) by {
            let whole = parse_dirs(bytes@.skip(12), count as nat);
            if whole is Some {
                assert(views(dirs@) + whole->0 =~= whole->0);
            }
        }
        while i < count
            invariant
                i <= count,
                12 <= at <= bytes@.len() <= MAX_SIZE,
                spec_u32_from_le_bytes(bytes@.subrange(0, 4)) == VERSION,
                spec_u64_from_le_bytes(bytes@.subrange(4, 12)) == count,
                forall|k: int| 0 <= k < dirs@.len() ==> (#[trigger] dirs@[k]).path is Borrowed,
                parse_dirs(bytes@.skip(12), count as nat) == continued(
                    views(dirs@),
                    parse_dirs(bytes@.skip(at as int), (count - i) as nat),
                ),
            decreases count - i,
        {
            let ghost rest = bytes@.skip(at as int);
            let ghost parsed = views(dirs@);
            match read_dir(bytes, at) {
                None => {
                    return Err(DecodeError::Corrupted);
                },
                Some((dir, end)) => {
                    proof {
                        assert(rest.skip(end - at) =~= bytes@.skip(end as int));
                        assert(views(dirs@.push(dir)) =~= parsed.push(dir@));
                        let more = parse_dirs(bytes@.skip(end as int), (count - i - 1) as nat);
                        if more is Some {
                            assert(parsed + (seq![dir@] + more->0) =~= parsed.push(dir@)
                                + more->0);
                        }
                    }
                    dirs.push(dir);
                    at = end;
                },
            }
            i += 1;
        }
        if at != total {
            return Err(DecodeError::Corrupted);
        }
        assert(views(dirs@) + Seq::<DirView>::empty() =~= views(dirs@));
        Ok(DirList(dirs))
    }
}

} // verus!
