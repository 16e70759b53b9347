use vstd::prelude::*;
use vstd::string::StringSliceAdditionalSpecFns;
use vstd::utf8::encode_utf8;
use vstd::slice::slice_subrange;

verus! {

broadcast use vstd::string::is_ascii_spec_bytes;

/// The two kinds of media that the catalog knows.
#[derive(Debug, Clone, Copy, PartialEq, Eq, Structural)]
pub enum FileType {
    IMAGE,
    VIDEO,
}

/// One cataloged media file: its path and the kind it was classified as.
#[derive(Debug)]
pub struct File {
    pub path: String,
    pub file_type: FileType,
}

impl View for File {
    type V = (Seq<char>, FileType);

    open spec fn view(&self) -> (Seq<char>, FileType) {
        (self.path@, self.file_type)
    }
}

/// The byte value of the path separator.
pub const SEPARATOR: u8 = 47;

/// The suffixes recognised for a kind, as characters.
pub open spec fn ext_chars(t: FileType) -> Seq<Seq<char>> {
    match t {
        FileType::IMAGE => seq![
            seq!['.', 'j', 'p', 'g'],
            seq!['.', 'j', 'p', 'e', 'g'],
            seq!['.', 'p', 'n', 'g'],
        ],
        FileType::VIDEO => seq![seq!['.', 'm', 'p', '4'], seq!['.', 'm', 'o', 'v']],
    }
}

/// The same suffixes, as the bytes of their (ASCII) encoding.
pub open spec fn ext_bytes(t: FileType) -> Seq<Seq<u8>> {
    ext_chars(t).map_values(|s: Seq<char>| Seq::new(s.len(), |i: int| s[i] as u8))
}

/// `needle` occurs in `hay` starting at position `i`.
pub open spec fn occurs_at(hay: Seq<u8>, needle: Seq<u8>, i: int) -> bool {
    0 <= i && i + needle.len() <= hay.len() && hay.subrange(i, i + needle.len()) == needle
}

/// `needle` occurs somewhere in `hay` (case-sensitive, anywhere, not only at the end).
pub open spec fn contains_bytes(hay: Seq<u8>, needle: Seq<u8>) -> bool {
    exists|i: int| occurs_at(hay, needle, i)
}

/// Where the last path component of `p` starts: just after the last separator, or 0.
pub open spec fn name_start(p: Seq<u8>) -> int
    decreases p.len(),
{
    if p.len() == 0 {
        0
    } else if p.last() == SEPARATOR {
        p.len() as int
    } else {
        name_start(p.drop_last())
    }
}

/// The file name starts within the path.
pub proof fn lemma_name_start_bounds(p: Seq<u8>)
    ensures
        0 <= name_start(p) <= p.len(),
    decreases p.len(),
{
    if p.len() > 0 && p.last() != SEPARATOR {
        lemma_name_start_bounds(p.drop_last());
    }
}

/// The file name of a path: its last component.
pub open spec fn base_name(p: Seq<u8>) -> Seq<u8> {
    p.subrange(name_start(p), p.len() as int)
}

/// A file name matches a kind when one of that kind's suffixes occurs in it.
pub open spec fn name_matches(name: Seq<u8>, t: FileType) -> bool {
    exists|j: int| 0 <= j < ext_bytes(t).len() && contains_bytes(name, #[trigger] ext_bytes(t)[j])
}

/// The kinds a file name is registered under: each matching kind once, images first.
pub open spec fn kinds_of(name: Seq<u8>) -> Seq<FileType> {
    (if name_matches(name, FileType::IMAGE) { seq![FileType::IMAGE] } else { Seq::empty() })
        + (if name_matches(name, FileType::VIDEO) { seq![FileType::VIDEO] } else { Seq::empty() })
}

/// The catalog entries that one walked path yields.
pub open spec fn entries_of(path: Seq<char>, bytes: Seq<u8>) -> Seq<(Seq<char>, FileType)> {
    kinds_of(base_name(bytes)).map_values(|k: FileType| (path, k))
}

/// The catalog of a sequence of walked paths, in the order they were walked.
pub open spec fn catalog_of(paths: Seq<String>) -> Seq<(Seq<char>, FileType)>
    decreases paths.len(),
{
    if paths.len() == 0 {
        Seq::empty()
    } else {
        catalog_of(paths.drop_last()) + entries_of(paths.last()@, encode_utf8(paths.last()@))
    }
}

impl File {
    pub fn new(path_: String, file_type_: FileType) -> (r: File)
        ensures
            r@ == (path_@, file_type_),
    {
        File { path: path_, file_type: file_type_ }
    }
}

pub fn get_supported_ext_for_file_type(file_type: &FileType) -> (r: Vec<&'static str>)
    ensures
        r@.len() == ext_bytes(*file_type).len(),
        forall|i: int| 0 <= i < r@.len() ==> (#[trigger] r@[i]).spec_bytes() == ext_bytes(*file_type)[i],
{
    match file_type {
        FileType::IMAGE => {
            proof {
                reveal_strlit(".jpg");
                assert(".jpg"@ =~= seq!['.', 'j', 'p', 'g']);
                assert(vstd::string::is_ascii(".jpg"));
                reveal_strlit(".jpeg");
                assert(".jpeg"@ =~= seq!['.', 'j', 'p', 'e', 'g']);
                assert(vstd::string::is_ascii(".jpeg"));
                reveal_strlit(".png");
                assert(".png"@ =~= seq!['.', 'p', 'n', 'g']);
                assert(vstd::string::is_ascii(".png"));
                assert(".jpg".spec_bytes() =~= ext_bytes(FileType::IMAGE)[0]);
                assert(".jpeg".spec_bytes() =~= ext_bytes(FileType::IMAGE)[1]);
                assert(".png".spec_bytes() =~= ext_bytes(FileType::IMAGE)[2]);
            }
            vec![".jpg", ".jpeg", ".png"]
        },
        FileType::VIDEO => {
            proof {
                reveal_strlit(".mp4");
                assert(".mp4"@ =~= seq!['.', 'm', 'p', '4']);
                assert(vstd::string::is_ascii(".mp4"));
                reveal_strlit(".mov");
                assert(".mov"@ =~= seq!['.', 'm', 'o', 'v']);
                assert(vstd::string::is_ascii(".mov"));
                assert(".mp4".spec_bytes() =~= ext_bytes(FileType::VIDEO)[0]);
                assert(".mov".spec_bytes() =~= ext_bytes(FileType::VIDEO)[1]);
            }
            vec![".mp4", ".mov"]
        },
    }
}

/// Whether `needle` occurs anywhere in `hay`.
pub fn contains_slice(hay: &[u8], needle: &[u8]) -> (r: bool)
    ensures
        r == contains_bytes(hay@, needle@),
{
    if needle.len() > hay.len() {
        return false;
    }
    if needle.len() == 0 {
        assert(hay@.subrange(0, 0) =~= needle@);
        assert(occurs_at(hay@, needle@, 0));
        return true;
    }
    let hay_len: usize = hay.len();
    let last: usize = hay_len - needle.len();
    let mut i: usize = 0;
    while i <= last
        invariant
            hay@.len() == hay_len,
            last == hay@.len() - needle@.len(),
            last < hay@.len(),
            i <= last + 1,
            forall|k: int| 0 <= k < i ==> !occurs_at(hay@, needle@, k),
        decreases last + 1 - i,
    {
        let mut j: usize = 0;
        let mut same: bool = true;
        while j < needle.len()
            invariant
                i <= last,
                hay@.len() == hay_len,
                last == hay@.len() - needle@.len(),
                i + needle@.len() <= hay@.len(),
                j <= needle@.len(),
                same == (forall|m: int| 0 <= m < j ==> hay@[i + m] == needle@[m]),
            decreases needle@.len() - j,
        {
            if hay[i + j] != needle[j] {
                same = false;
            }
            j = j + 1;
        }
        if same {
            assert(hay@.subrange(i as int, i + needle@.len()) =~= needle@);
            assert(occurs_at(hay@, needle@, i as int));
            return true;
        }
        proof {
            if occurs_at(hay@, needle@, i as int) {
                let m = choose|m: int| 0 <= m < needle@.len() && hay@[i + m] != needle@[m];
                assert(hay@.subrange(i as int, i + needle@.len())[m] == hay@[i + m]);
            }
        }
        i = i + 1;
    }
    assert forall|k: int| !occurs_at(hay@, needle@, k) by {
        if 0 <= k && k + needle@.len() <= hay@.len() {
            assert(k < i);
        }
    }
    false
}

/// The position at which the last path component of `p` starts.
pub fn file_name_start(p: &[u8]) -> (r: usize)
    ensures
        r == name_start(p@),
{
    let mut i: usize = p.len();
    assert(p@.subrange(0, i as int) =~= p@);
    while i > 0 && p[i - 1] != SEPARATOR
        invariant
            i <= p@.len(),
            name_start(p@) == name_start(p@.subrange(0, i as int)),
        decreases i,
    {
        assert(p@.subrange(0, i as int).drop_last() =~= p@.subrange(0, i - 1));
        i = i - 1;
    }
    assert(p@.subrange(0, p@.len() as int) =~= p@);
    i
}

/// Whether a file name matches one of the suffixes of `file_type`.
pub fn matches_file_type(name: &[u8], file_type: &FileType) -> (r: bool)
    ensures
        r == name_matches(name@, *file_type),
{
    let exts = get_supported_ext_for_file_type(file_type);
    let mut k: usize = 0;
    while k < exts.len()
        invariant
            exts@.len() == ext_bytes(*file_type).len(),
            forall|i: int| 0 <= i < exts@.len() ==> (#[trigger] exts@[i]).spec_bytes() == ext_bytes(*file_type)[i],
            forall|i: int| 0 <= i < k ==> !contains_bytes(name@, #[trigger] ext_bytes(*file_type)[i]),
        decreases exts@.len() - k,
    {
        let ext: &str = exts[k];
        if contains_slice(name, ext.as_bytes()) {
            assert(contains_bytes(name@, ext_bytes(*file_type)[k as int]));
            return true;
        }
        k = k + 1;
    }
    false
}

/// The kinds a file name is registered under, images first.
pub fn classify(name: &[u8]) -> (r: Vec<FileType>)
    ensures
        r@ == kinds_of(name@),
{
    let mut r: Vec<FileType> = Vec::new();
    if matches_file_type(name, &FileType::IMAGE) {
        r.push(FileType::IMAGE);
    }
    if matches_file_type(name, &FileType::VIDEO) {
        r.push(FileType::VIDEO);
    }
    assert(r@ =~= kinds_of(name@));
    r
}

/// Builds the media catalog of the paths a directory walk yielded, in their order:
/// each path is registered once under each kind whose suffix occurs in its file name.
pub fn get_media_files(paths: &Vec<String>) -> (r: Vec<File>)
    ensures
        r@.map_values(|f: File| f@) == catalog_of(paths@),
{
    let mut media_files: Vec<File> = Vec::new();
    let mut n: usize = 0;
    while n < paths.len()
        invariant
            n <= paths@.len(),
            media_files@.map_values(|f: File| f@) == catalog_of(paths@.subrange(0, n as int)),
        decreases paths@.len() - n,
    {
        let bytes: &[u8] = paths[n].as_str().as_bytes();
        let start = file_name_start(bytes);
        proof {
            lemma_name_start_bounds(bytes@);
        }
        let name: &[u8] = slice_subrange(bytes, start, bytes.len());
        let kinds = classify(name);
        let ghost before = media_files@.map_values(|f: File| f@);
        let mut k: usize = 0;
        while k < kinds.len()
            invariant
                k <= kinds@.len(),
                n < paths@.len(),
                kinds@ == kinds_of(base_name(encode_utf8(paths@[n as int]@))),
                media_files@.map_values(|f: File| f@) == before + kinds@.subrange(0, k as int).map_values(
                    |t: FileType| (paths@[n as int]@, t),
                ),
            decreases kinds@.len() - k,
        {
            let ghost prev = media_files@;
            media_files.push(File::new(paths[n].clone(), kinds[k]));
            assert(media_files@ =~= prev.push(media_files@.last()));
            assert(media_files@.map_values(|f: File| f@) =~= prev.map_values(|f: File| f@).push(
                (paths@[n as int]@, kinds@[k as int]),
            ));
            assert(media_files@.map_values(|f: File| f@) =~= before + kinds@.subrange(0, k + 1).map_values(
                |t: FileType| (paths@[n as int]@, t),
            ));
            k = k + 1;
        }
        assert(kinds@.subrange(0, k as int) =~= kinds@);
        assert(paths@.subrange(0, n + 1).drop_last() =~= paths@.subrange(0, n as int));
        n = n + 1;
    }
    assert(paths@.subrange(0, n as int) =~= paths@);
    media_files
}

} // verus!
