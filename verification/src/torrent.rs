//! The description of a torrent: where its tracker is, which files it
//! holds, how they are cut into pieces and what each piece hashes to.

use vstd::prelude::*;
use vstd::string::*;
use crate::digest::{sha1_digest, sha1_hash};
use crate::encoding::{hex_encode, hex_lower};

verus! {

/// Why a description of a torrent is not accepted, or a question about it
/// has no answer.
#[derive(Debug, Clone, Copy, PartialEq, Eq, Structural)]
pub enum TorrentError {
    /// The lengths of the files add up to more than the machine can count.
    LengthOverflow,
    /// There is no piece with this index.
    PieceOutOfBounds { index: usize },
    /// The number of bytes of the piece hashes is not a multiple of twenty.
    InvalidHashesLength { length: usize },
}

/// Represents a file listed in the torrent.
///
/// It holds the length of the file in bytes and the subdirectory names that
/// form the path to the file, the last of which is the actual file name.
#[derive(Debug, Clone)]
pub struct File {
    length: usize,
    subdirectories: Vec<String>,
}

/// A file as a mathematical value.
pub struct FileView {
    pub length: usize,
    pub path: Seq<Seq<char>>,
}

impl View for File {
    type V = FileView;

    closed spec fn view(&self) -> FileView {
        FileView {
            length: self.length,
            path: texts(self.subdirectories@),
        }
    }
}

/// The characters of each string of a list.
pub open spec fn texts(strings: Seq<String>) -> Seq<Seq<char>> {
    strings.map_values(|s: String| s@)
}

/// The parts of a path with a separator between each two of them.
pub open spec fn joined(parts: Seq<Seq<char>>, separator: Seq<char>) -> Seq<char>
    decreases parts.len(),
{
    if parts.len() == 0 {
        Seq::empty()
    } else if parts.len() == 1 {
        parts[0]
    } else {
        joined(parts.drop_last(), separator) + separator + parts.last()
    }
}

/// `std::path::MAIN_SEPARATOR_STR`: the separator of path components on the
/// platform this runs on. Nothing is assumed of it.
#[verifier::external_body]
fn main_separator() -> (separator: &'static str) {
    std::path::MAIN_SEPARATOR_STR
}

impl File {
    /// Describes a file by its length and the names that lead to it.
    pub fn new(length: usize, subdirectories: Vec<String>) -> (file: Self)
        ensures
            file@ == (FileView { length, path: texts(subdirectories@) }),
    {
        File { length, subdirectories }
    }

    /// Return the path of the file, its parts joined by `separator`.
    pub fn path_with(&self, separator: &str) -> (path: String)
        ensures
            path@ == joined(self@.path, separator@),
    {
        let count = self.subdirectories.len();
        let mut path = String::new();
        let mut i: usize = 0;
        let ghost parts = self@.path;
        assert(parts.take(0) =~= Seq::<Seq<char>>::empty());
        while i < count
            invariant
                i <= count,
                count == self.subdirectories@.len(),
                parts == self@.path,
                path@ == joined(parts.take(i as int), separator@),
            decreases count - i,
        {
            if i > 0 {
                path.append(separator);
            }
            path.append(self.subdirectories[i].as_str());
            i += 1;
            proof {
                let now = parts.take(i as int);
                assert(now.drop_last() =~= parts.take(i - 1));
                assert(now.last() == self.subdirectories@[i - 1]@);
                assert(path@ =~= joined(now, separator@));
            }
        }
        assert(parts.take(count as int) =~= parts);
        path
    }

    /// Return the path of the file, its parts joined by the separator of
    /// the platform.
    pub fn path(&self) -> (path: String)
        ensures
            exists|separator: Seq<char>| path@ == joined(self@.path, separator),
    {
        let separator = main_separator();
        self.path_with(separator)
    }

    /// Returns the length of the file in bytes.
    pub fn length(&self) -> (length: usize)
        ensures
            length == self@.length,
    {
        self.length
    }

    /// Returns the subdirectory names that lead to the file, the last of
    /// which is the file name.
    pub fn subdirectories(&self) -> (names: &Vec<String>)
        ensures
            texts(names@) == self@.path,
    {
        &self.subdirectories
    }
}

/// There is a key `length` and a key `files`, but not both or neither.
///
/// If length is present then the download represents a single file, and
/// `length` is the length of the file in bytes. Otherwise it represents a
/// set of files which go in a directory structure; for the purposes of the
/// other keys the files are taken as one, in the order of the list.
#[derive(Debug, Clone)]
pub enum Keys {
    SingleFile { length: usize },
    MultiFile { files: Vec<File> },
}

/// The file keys as a mathematical value.
pub enum KeysView {
    SingleFile { length: usize },
    MultiFile { files: Seq<FileView> },
}

impl View for Keys {
    type V = KeysView;

    open spec fn view(&self) -> KeysView {
        match self {
            Keys::SingleFile { length } => KeysView::SingleFile { length: *length },
            Keys::MultiFile { files } => KeysView::MultiFile {
                files: files@.map_values(|f: File| f@),
            },
        }
    }
}

/// The lengths of files added up.
pub open spec fn sum_of_lengths(files: Seq<FileView>) -> nat
    decreases files.len(),
{
    if files.len() == 0 {
        0
    } else {
        sum_of_lengths(files.drop_last()) + files.last().length as nat
    }
}

/// The number of bytes of all the files of a torrent.
pub open spec fn total_length(keys: KeysView) -> nat {
    match keys {
        KeysView::SingleFile { length } => length as nat,
        KeysView::MultiFile { files } => sum_of_lengths(files),
    }
}

/// The sum over the first files of a list is at most the sum over all.
proof fn lemma_sum_of_lengths_grows(files: Seq<FileView>, i: int)
    requires
        0 <= i <= files.len(),
    ensures
        sum_of_lengths(files.take(i)) <= sum_of_lengths(files),
    decreases files.len() - i,
{
    if i == files.len() {
        assert(files.take(i) =~= files);
    } else {
        lemma_sum_of_lengths_grows(files, i + 1);
        assert(files.take(i + 1).drop_last() =~= files.take(i));
    }
}

/// Adds up the lengths of the files, unless the sum is more than the
/// machine can count.
fn checked_total(keys: &Keys) -> (total: Option<usize>)
    ensures
        match total {
            Some(t) => t == total_length(keys@),
            None => total_length(keys@) > usize::MAX,
        },
{
    match keys {
        Keys::SingleFile { length } => Some(*length),
        Keys::MultiFile { files } => {
            let ghost views = files@.map_values(|f: File| f@);
            let count = files.len();
            let mut total: usize = 0;
            let mut i: usize = 0;
            assert(views.take(0) =~= Seq::<FileView>::empty());
            while i < count
                invariant
                    i <= count,
                    count == files@.len(),
                    views == files@.map_values(|f: File| f@),
                    keys@ == (KeysView::MultiFile { files: views }),
                    total == sum_of_lengths(views.take(i as int)),
                decreases count - i,
            {
                let length = files[i].length();
                proof {
                    assert(views.take(i + 1).drop_last() =~= views.take(i as int));
                    assert(views.take(i + 1).last() == files@[i as int]@);
                    assert(sum_of_lengths(views.take(i + 1)) == total + length);
                    lemma_sum_of_lengths_grows(views, i + 1);
                }
                if length > usize::MAX - total {
                    return None;
                }
                total = total + length;
                i += 1;
            }
            assert(views.take(count as int) =~= views);
            Some(total)
        },
    }
}

/// The number of bytes of the piece `i` of a torrent. Every piece has the
/// piece length of the torrent but the last, which has what is left. There
/// is no answer for an index that is no piece, nor for a torrent whose
/// pieces do not add up: a piece length of zero, or a total length that the
/// pieces fall short of or overshoot by a piece or more.
pub open spec fn piece_size(t: TorrentView, i: int) -> Option<usize> {
    let n = t.pieces.len() as int;
    let total = total_length(t.keys) as int;
    let full = (n - 1) * t.piece_length;
    if 0 <= i < n && t.piece_length > 0 && full < total <= full + t.piece_length {
        if i < n - 1 {
            Some(t.piece_length)
        } else {
            Some((total - full) as usize)
        }
    } else {
        None
    }
}

/// A list of SHA1 hashes.
#[derive(Debug, Clone)]
pub struct Hashes(pub Vec<[u8; 20]>);

/// The twenty bytes of each hash, one hash after the other.
pub open spec fn hashes_bytes(hashes: Seq<[u8; 20]>) -> Seq<u8> {
    Seq::new(20 * hashes.len(), |i: int| hashes[i / 20]@[i % 20])
}

impl Hashes {
    /// Reads piece hashes from bytes: twenty bytes for each hash.
    ///
    /// # Errors
    ///
    /// A number of bytes that is not a multiple of twenty is refused.
    pub fn from_bytes(v: &[u8]) -> (hashes: Result<Self, TorrentError>)
        ensures
            hashes is Ok <==> v@.len() % 20 == 0,
            hashes matches Err(e) ==> e == (TorrentError::InvalidHashesLength {
                length: v@.len() as usize,
            }),
            hashes matches Ok(h) ==> {
                &&& 20 * h.0@.len() == v@.len()
                &&& forall|k: int|
                    0 <= k < h.0@.len() ==> (#[trigger] h.0@[k])@ == v@.subrange(20 * k, 20 * k + 20)
            },
    {
        let length = v.len();
        if length % 20 != 0 {
            return Err(TorrentError::InvalidHashesLength { length });
        }
        let mut hashes: Vec<[u8; 20]> = Vec::new();
        let mut at: usize = 0;
        while at < length
            invariant
                length == v@.len(),
                length % 20 == 0,
                at <= length,
                at == 20 * hashes@.len(),
                forall|k: int|
                    0 <= k < hashes@.len() ==> (#[trigger] hashes@[k])@ == v@.subrange(
                        20 * k,
                        20 * k + 20,
                    ),
            decreases length - at,
        {
            let mut hash: [u8; 20] = [0;20];
            let mut j: usize = 0;
            while j < 20
                invariant
                    j <= 20,
                    length == v@.len(),
                    at + 20 <= length,
                    forall|i: int| 0 <= i < j ==> hash@[i] == v@[at + i],
                decreases 20 - j,
            {
                hash[j] = v[at + j];
                j += 1;
            }
            assert(hash@ =~= v@.subrange(at as int, at + 20));
            hashes.push(hash);
            at += 20;
        }
        Ok(Hashes(hashes))
    }

    /// Writes the hashes as bytes, one after the other.
    pub fn to_bytes(&self) -> (bytes: Vec<u8>)
        ensures
            bytes@ == hashes_bytes(self.0@),
    {
        let count = self.0.len();
        let mut bytes: Vec<u8> = Vec::new();
        let mut k: usize = 0;
        while k < count
            invariant
                count == self.0@.len(),
                k <= count,
                bytes@.len() == 20 * k,
                forall|i: int| 0 <= i < 20 * k ==> bytes@[i] == hashes_bytes(self.0@)[i],
            decreases count - k,
        {
            let hash = &self.0[k];
            let mut j: usize = 0;
            while j < 20
                invariant
                    j <= 20,
                    k < count,
                    count == self.0@.len(),
                    *hash == self.0@[k as int],
                    bytes@.len() == 20 * k + j,
                    forall|i: int| 0 <= i < 20 * k + j ==> bytes@[i] == hashes_bytes(self.0@)[i],
                decreases 20 - j,
            {
                bytes.push(hash[j]);
                proof {
                    let i = 20 * k + j;
                    assert(i / 20 == k && i % 20 == j);
                }
                j += 1;
            }
            k += 1;
        }
        assert(bytes@ =~= hashes_bytes(self.0@));
        bytes
    }
}

/// Torrent info dictionary: the name of the file or of the top directory,
/// the number of bytes in each piece, the hashes of the pieces, and the
/// file or files.
#[derive(Debug)]
struct Info {
    name: String,
    piece_length: usize,
    pieces: Hashes,
    keys: Keys,
}

/// Represents a meta-info file (.torrent file), which contains metadata about
/// files to be shared over a BitTorrent network. It includes the URL of the
/// tracker and a detailed info dictionary describing the files to be shared.
#[derive(Debug)]
pub struct Torrent {
    announce: String,
    info: Info,
}

/// A torrent as a mathematical value.
pub struct TorrentView {
    pub announce: Seq<char>,
    pub name: Seq<char>,
    pub piece_length: usize,
    pub pieces: Seq<[u8; 20]>,
    pub keys: KeysView,
}

impl View for Torrent {
    type V = TorrentView;

    closed spec fn view(&self) -> TorrentView {
        TorrentView {
            announce: self.announce@,
            name: self.info.name@,
            piece_length: self.info.piece_length,
            pieces: self.info.pieces.0@,
            keys: self.info.keys@,
        }
    }
}

/// A copy of a list of strings.
fn copy_of_strings(strings: &Vec<String>) -> (copy: Vec<String>)
    ensures
        texts(copy@) == texts(strings@),
{
    let count = strings.len();
    let mut copy: Vec<String> = Vec::new();
    let mut i: usize = 0;
    while i < count
        invariant
            i <= count,
            count == strings@.len(),
            copy@.len() == i,
            forall|j: int| 0 <= j < i ==> (#[trigger] copy@[j])@ == strings@[j]@,
        decreases count - i,
    {
        copy.push(strings[i].clone());
        i += 1;
    }
    assert(texts(copy@) =~= texts(strings@));
    copy
}

/// A copy of the file keys.
fn copy_of_keys(keys: &Keys) -> (copy: Keys)
    ensures
        copy@ == keys@,
{
    match keys {
        Keys::SingleFile { length } => Keys::SingleFile { length: *length },
        Keys::MultiFile { files } => {
            let count = files.len();
            let mut copy: Vec<File> = Vec::new();
            let mut i: usize = 0;
            while i < count
                invariant
                    i <= count,
                    count == files@.len(),
                    copy@.len() == i,
                    forall|j: int| 0 <= j < i ==> (#[trigger] copy@[j])@ == files@[j]@,
                decreases count - i,
            {
                let file = &files[i];
                copy.push(File::new(file.length, copy_of_strings(&file.subdirectories)));
                i += 1;
            }
            assert(copy@.map_values(|f: File| f@) =~= files@.map_values(|f: File| f@));
            Keys::MultiFile { files: copy }
        },
    }
}

/// A copy of a list of hashes.
fn copy_of_hashes(hashes: &Hashes) -> (copy: Hashes)
    ensures
        copy.0@ == hashes.0@,
{
    let count = hashes.0.len();
    let mut copy: Vec<[u8; 20]> = Vec::new();
    let mut i: usize = 0;
    while i < count
        invariant
            i <= count,
            count == hashes.0@.len(),
            copy@ == hashes.0@.take(i as int),
        decreases count - i,
    {
        copy.push(hashes.0[i]);
        i += 1;
        assert(copy@ =~= hashes.0@.take(i as int));
    }
    assert(hashes.0@.take(count as int) =~= hashes.0@);
    Hashes(copy)
}

impl Clone for Torrent {
    /// A copy of the description, equal to it in every part.
    fn clone(&self) -> (copy: Self)
        ensures
            copy@ == self@,
    {
        proof {
            use_type_invariant(self);
        }
        Torrent {
            announce: self.announce.clone(),
            info: Info {
                name: self.info.name.clone(),
                piece_length: self.info.piece_length,
                pieces: copy_of_hashes(&self.info.pieces),
                keys: copy_of_keys(&self.info.keys),
            },
        }
    }
}

/// The lines that list the files of a torrent: the name for a single file,
/// the path of each file for several, its parts joined by `separator`.
pub open spec fn is_tree_with(lines: Seq<Seq<char>>, t: TorrentView, separator: Seq<char>) -> bool {
    match t.keys {
        KeysView::SingleFile { .. } => lines == seq![t.name],
        KeysView::MultiFile { files } => {
            &&& lines.len() == files.len()
            &&& forall|i: int|
                0 <= i < files.len() ==> #[trigger] lines[i] == joined(files[i].path, separator)
        },
    }
}

impl Torrent {
    #[verifier::type_invariant]
    spec fn total_fits(self) -> bool {
        total_length(self.info.keys@) <= usize::MAX
    }

    /// Puts together the description of a torrent.
    ///
    /// # Errors
    ///
    /// `LengthOverflow` if the lengths of the files add up to more than
    /// `usize::MAX`.
    pub fn new(
        announce: String,
        name: String,
        piece_length: usize,
        pieces: Hashes,
        keys: Keys,
    ) -> (torrent: Result<Self, TorrentError>)
        ensures
            torrent is Ok <==> total_length(keys@) <= usize::MAX,
            torrent matches Ok(t) ==> t@ == (TorrentView {
                announce: announce@,
                name: name@,
                piece_length,
                pieces: pieces.0@,
                keys: keys@,
            }),
            torrent matches Err(e) ==> e == TorrentError::LengthOverflow,
    {
        let total = checked_total(&keys);
        if total.is_none() {
            return Err(TorrentError::LengthOverflow);
        }
        assert(total_length(keys@) <= usize::MAX);
        Ok(Torrent { announce, info: Info { name, piece_length, pieces, keys } })
    }

    /// The URL of the tracker, which coordinates the distribution of file
    /// pieces between peers.
    pub fn announce(&self) -> (announce: &str)
        ensures
            announce@ == self@.announce,
    {
        self.announce.as_str()
    }

    /// Returns the name of the file or directory in the torrent.
    pub fn name(&self) -> (name: &str)
        ensures
            name@ == self@.name,
    {
        self.info.name.as_str()
    }

    /// Returns the keys of the file(s) in the torrent.
    pub fn keys(&self) -> (keys: &Keys)
        ensures
            keys@ == self@.keys,
    {
        &self.info.keys
    }

    /// Return the length of the file(s) in the torrent: the length of the
    /// single file, or the sum of the lengths of all the files.
    pub fn length(&self) -> (length: usize)
        ensures
            length == total_length(self@.keys),
    {
        proof {
            use_type_invariant(self);
        }
        checked_total(&self.info.keys).unwrap()
    }

    /// The lines that list the file(s) in the torrent, with the separator of
    /// the platform between the parts of a path.
    pub fn tree_lines(&self) -> (lines: Vec<String>)
        ensures
            exists|separator: Seq<char>| #[trigger] is_tree_with(texts(lines@), self@, separator),
    {
        let mut lines: Vec<String> = Vec::new();
        match &self.info.keys {
            Keys::SingleFile { .. } => {
                lines.push(self.info.name.clone());
                assert(texts(lines@) =~= seq![self@.name]);
                assert(is_tree_with(texts(lines@), self@, Seq::empty()));
            },
            Keys::MultiFile { files } => {
                let separator = main_separator();
                let count = files.len();
                let mut i: usize = 0;
                while i < count
                    invariant
                        i <= count,
                        count == files@.len(),
                        lines@.len() == i,
                        forall|j: int|
                            0 <= j < i ==> (#[trigger] lines@[j])@ == joined(
                                files@[j]@.path,
                                separator@,
                            ),
                    decreases count - i,
                {
                    lines.push(files[i].path_with(separator));
                    i += 1;
                }
                proof {
                    let listed = texts(lines@);
                    let views = files@.map_values(|f: File| f@);
                    assert forall|j: int| 0 <= j < views.len() implies #[trigger] listed[j]
                        == joined(views[j].path, separator@) by {
                        assert(listed[j] == lines@[j]@);
                    }
                    assert(is_tree_with(listed, self@, separator@));
                }
            },
        }
        lines
    }

    /// Returns the total number of pieces that the file(s) in the torrent
    /// are divided into.
    pub fn n_pieces(&self) -> (count: usize)
        ensures
            count == self@.pieces.len(),
    {
        self.info.pieces.0.len()
    }

    /// Returns the number of bytes in each piece the file is split into.
    /// All pieces have this size but possibly the last, which may be shorter.
    pub fn piece_length(&self) -> (length: usize)
        ensures
            length == self@.piece_length,
    {
        self.info.piece_length
    }

    /// Returns the number of bytes of a specified piece, or `None` where the
    /// index is out of bounds or the pieces of the torrent do not add up to
    /// its length.
    pub fn piece_size(&self, piece_i: usize) -> (size: Option<usize>)
        ensures
            size == piece_size(self@, piece_i as int),
    {
        let n = self.n_pieces();
        let piece_length = self.piece_length();
        let total = self.length();
        if piece_i >= n || piece_length == 0 {
            return None;
        }
        let full = match (n - 1).checked_mul(piece_length) {
            Some(full) => full,
            None => {
                return None;
            },
        };
        if full >= total || total - full > piece_length {
            return None;
        }
        if piece_i < n - 1 {
            Some(piece_length)
        } else {
            Some(total - full)
        }
    }

    /// Returns the SHA1 hash of a specified piece in the torrent.
    ///
    /// # Errors
    ///
    /// `PieceOutOfBounds` if the piece index is out of bounds.
    pub fn get_piece_hash(&self, piece_i: usize) -> (hash: Result<&[u8; 20], TorrentError>)
        ensures
            hash is Ok <==> piece_i < self@.pieces.len(),
            hash matches Ok(h) ==> *h == self@.pieces[piece_i as int],
            hash matches Err(e) ==> e == (TorrentError::PieceOutOfBounds { index: piece_i }),
    {
        if piece_i < self.info.pieces.0.len() {
            Ok(&self.info.pieces.0[piece_i])
        } else {
            Err(TorrentError::PieceOutOfBounds { index: piece_i })
        }
    }

    /// Return the SHA1 hashes of the pieces in the torrent, each spelled in
    /// hexadecimal.
    pub fn pieces_hex(&self) -> (texts: Vec<String>)
        ensures
            texts@.len() == self@.pieces.len(),
            forall|i: int|
                0 <= i < texts@.len() ==> (#[trigger] texts@[i])@ == hex_lower(self@.pieces[i]@),
    {
        let count = self.info.pieces.0.len();
        let mut texts: Vec<String> = Vec::new();
        let mut i: usize = 0;
        while i < count
            invariant
                i <= count,
                count == self.info.pieces.0@.len(),
                texts@.len() == i,
                forall|j: int|
                    0 <= j < i ==> (#[trigger] texts@[j])@ == hex_lower(self.info.pieces.0@[j]@),
            decreases count - i,
        {
            texts.push(hex_encode(self.info.pieces.0[i].as_slice()));
            i += 1;
        }
        texts
    }

    /// Return the SHA1 hashes of the pieces in the torrent in bytes.
    pub fn pieces_sha1(&self) -> (hashes: &Vec<[u8; 20]>)
        ensures
            hashes@ == self@.pieces,
    {
        &self.info.pieces.0
    }
}

/// Returns the SHA1 hash of the info dictionary, given its encoded form as
/// it stands in the torrent file. The hash identifies the torrent.
pub fn info_hash(encoded_info: &[u8]) -> (hash: [u8; 20])
    ensures
        hash@ == sha1_hash(encoded_info@),
{
    sha1_digest(encoded_info)
}

} // verus!
