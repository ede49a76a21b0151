//! The node model: hashes, metadata, files and directories, each with a
//! mathematical view over sequences of characters.

use vstd::prelude::*;
use vstd::string::*;

verus! {

/// What a `Metadata` value holds, as plain sequences.
pub struct MetadataView {
    pub visible_name: Seq<char>,
    pub parent: Option<Seq<char>>,
    pub last_modified: Seq<char>,
    pub type_: Seq<char>,
}

/// What a `File` holds.
pub struct FileView {
    pub hash: Seq<char>,
    pub metadata: MetadataView,
}

/// What a `Directory` holds: its own identity and its children, in the order
/// in which they were added.
pub struct DirectoryView {
    pub hash: Seq<char>,
    pub metadata: MetadataView,
    pub files: Seq<FileView>,
    pub directories: Seq<DirectoryView>,
}

/// An opaque content identifier.
#[derive(Debug)]
pub struct Hash(String);

/// The descriptive record that accompanies every hash.
#[derive(Debug)]
pub struct Metadata {
    visible_name: String,
    parent: Option<String>,
    last_modified: String,
    pub type_: String,
}

/// A leaf of a tree.
#[derive(Debug)]
pub struct File {
    hash: Hash,
    metadata: Metadata,
}

/// An inner node of a tree, owning its children.
#[derive(Debug)]
pub struct Directory {
    hash: Hash,
    metadata: Metadata,
    files: Vec<File>,
    directories: Vec<Directory>,
}

/// A directory that stands for a place outside any listing: it has a name
/// and children, but neither hash nor metadata.
#[derive(Debug)]
pub struct SystemDirectory {
    name: String,
    files: Vec<File>,
    directories: Vec<Directory>,
}

/// The views of a sequence of files, element by element.
pub open spec fn files_view(v: Seq<File>) -> Seq<FileView> {
    v.map_values(|f: File| f@)
}

/// The views of a sequence of directories, element by element.
pub open spec fn dirs_view(v: Seq<Directory>) -> Seq<DirectoryView> {
    v.map_values(|d: Directory| d@)
}

/// The view of an optional borrowed string.
pub open spec fn opt_text(p: Option<&String>) -> Option<Seq<char>> {
    match p {
        Some(s) => Some(s@),
        None => None,
    }
}

/// Whether `s` ends with `suffix`.
pub open spec fn ends_with(s: Seq<char>, suffix: Seq<char>) -> bool {
    s.len() >= suffix.len() && s.subrange(s.len() - suffix.len(), s.len() as int) == suffix
}

/// The first recognised document extension.
pub open spec fn pdf_ext() -> Seq<char> {
    ".pdf"@
}

/// The second recognised document extension.
pub open spec fn epub_ext() -> Seq<char> {
    ".epub"@
}

/// A name without its one trailing document extension, or the name itself
/// where it carries none.
pub open spec fn stem(name: Seq<char>) -> Seq<char> {
    if ends_with(name, pdf_ext()) {
        name.subrange(0, name.len() - pdf_ext().len())
    } else if ends_with(name, epub_ext()) {
        name.subrange(0, name.len() - epub_ext().len())
    } else {
        name
    }
}

/// Why the modification time of a file cannot be shown.
#[derive(Debug, Clone, Copy, PartialEq, Eq, Structural)]
pub enum TimestampError {
    /// The recorded text is no decimal number of seconds.
    Malformed,
    /// The number of seconds lies outside the dates that can be shown.
    OutOfRange,
}

/// A decimal digit.
pub open spec fn is_digit(c: char) -> bool {
    '0' <= c <= '9'
}

/// The number that a sequence of decimal digits denotes.
pub open spec fn digits_value(s: Seq<char>) -> int
    decreases s.len(),
{
    if s.len() == 0 {
        0
    } else {
        digits_value(s.drop_last()) * 10 + (s.last() as int - '0' as int)
    }
}

/// The number that a text denotes in decimal notation: an optional sign,
/// then one digit or more, and a value that fits in 64 bits.
pub open spec fn decimal_i64(text: Seq<char>) -> Option<i64> {
    let negative = text.len() > 0 && text[0] == '-';
    let signed = negative || (text.len() > 0 && text[0] == '+');
    let digits = if signed {
        text.subrange(1, text.len() as int)
    } else {
        text
    };
    let value = if negative {
        -digits_value(digits)
    } else {
        digits_value(digits)
    };
    if digits.len() > 0 && (forall|i: int| 0 <= i < digits.len() ==> is_digit(#[trigger] digits[i]))
        && i64::MIN <= value <= i64::MAX {
        Some(value as i64)
    } else {
        None
    }
}

/// The date and time, in UTC and in the form `2015-05-15 00:00:00`, of the
/// given number of seconds since the start of 1970; `None` where the date
/// lies outside what can be represented.
pub uninterp spec fn utc_timestamp_text(secs: i64) -> Option<Seq<char>>;

/// Calls `str::parse::<i64>` of the standard library, which reads an
/// optional sign followed by decimal digits and fails on anything else, on
/// an empty text and on a value that does not fit: the result is the number
/// that the text denotes.
#[verifier::external_body]
fn parse_seconds(text: &str) -> (res: Option<i64>)
    ensures
        res == decimal_i64(text@),
{
    text.parse::<i64>().ok()
}

/// Calls `chrono::DateTime::from_timestamp` with no nanoseconds, and formats
/// what it returns with `chrono::DateTime::format` and the pattern
/// `%Y-%m-%d %H:%M:%S`. The result depends on the seconds alone; it is `None`
/// exactly when chrono finds the seconds out of range.
#[verifier::external_body]
fn format_utc_seconds(secs: i64) -> (res: Option<String>)
    ensures
        match res {
            Some(text) => utc_timestamp_text(secs) == Some(text@),
            None => utc_timestamp_text(secs).is_none(),
        },
{
    chrono::DateTime::from_timestamp(secs, 0).map(|t| t.format("%Y-%m-%d %H:%M:%S").to_string())
}

/// The text that shows a recorded modification time, or the reason why it
/// cannot be shown.
pub open spec fn shown_time(recorded: Seq<char>) -> Result<Seq<char>, TimestampError> {
    match decimal_i64(recorded) {
        None => Err(TimestampError::Malformed),
        Some(secs) => match utc_timestamp_text(secs) {
            None => Err(TimestampError::OutOfRange),
            Some(text) => Ok(text),
        },
    }
}

/// What is shown for a modification time, given the seconds that were read
/// from the recorded text, if any, and the date and time that they denote,
/// if any.
pub fn shown_for(seconds: Option<i64>, text: Option<String>) -> (res: Result<
    String,
    TimestampError,
>)
    ensures
        res == match (seconds, text) {
            (None, _) => Err::<String, TimestampError>(TimestampError::Malformed),
            (Some(_), None) => Err::<String, TimestampError>(TimestampError::OutOfRange),
            (Some(_), Some(t)) => Ok::<String, TimestampError>(t),
        },
{
    match seconds {
        None => Err(TimestampError::Malformed),
        Some(_) => match text {
            None => Err(TimestampError::OutOfRange),
            Some(t) => Ok(t),
        },
    }
}

/// Tells whether `s` ends with `suffix`, character by character.
pub fn has_suffix(s: &str, suffix: &str) -> (b: bool)
    ensures
        b == ends_with(s@, suffix@),
{
    let n: usize = s.unicode_len();
    let m: usize = suffix.unicode_len();
    if n < m {
        return false;
    }
    let start: usize = n - m;
    let mut i: usize = 0;
    while i < m
        invariant
            i <= m,
            n == s@.len(),
            m == suffix@.len(),
            start == n - m,
            forall|j: int| 0 <= j < i ==> s@[start + j] == #[trigger] suffix@[j],
        decreases m - i,
    {
        if s.get_char(start + i) != suffix.get_char(i) {
            assert(s@.subrange(start as int, n as int)[i as int] != suffix@[i as int]);
            return false;
        }
        i += 1;
    }
    assert(s@.subrange(start as int, n as int) =~= suffix@);
    true
}

impl View for Hash {
    type V = Seq<char>;

    closed spec fn view(&self) -> Seq<char> {
        self.0@
    }
}

impl View for Metadata {
    type V = MetadataView;

    closed spec fn view(&self) -> MetadataView {
        MetadataView {
            visible_name: self.visible_name@,
            parent: match self.parent {
                Some(p) => Some(p@),
                None => None,
            },
            last_modified: self.last_modified@,
            type_: self.type_@,
        }
    }
}

impl View for File {
    type V = FileView;

    closed spec fn view(&self) -> FileView {
        FileView { hash: self.hash@, metadata: self.metadata@ }
    }
}

impl View for Directory {
    type V = DirectoryView;

    closed spec fn view(&self) -> DirectoryView {
        directory_model(*self)
    }
}

/// The view of a directory, built from the views of its children.
pub closed spec fn directory_model(dir: Directory) -> DirectoryView
    decreases dir,
{
    DirectoryView {
        hash: dir.hash@,
        metadata: dir.metadata@,
        files: files_view(dir.files@),
        directories: Seq::new(
            dir.directories@.len(),
            |i: int|
                if 0 <= i < dir.directories@.len() {
                    directory_model(dir.directories@[i])
                } else {
                    arbitrary()
                },
        ),
    }
}

impl Hash {
    pub fn new(hash: String) -> (res: Hash)
        ensures
            res@ == hash@,
    {
        Hash(hash)
    }

    /// The identifier as a string.
    pub fn text(&self) -> (s: &String)
        ensures
            s@ == self@,
    {
        &self.0
    }

    /// The identifier as text.
    pub fn as_str(&self) -> (s: &str)
        ensures
            s@ == self@,
    {
        self.0.as_str()
    }
}

impl Clone for Hash {
    fn clone(&self) -> (res: Hash)
        ensures
            res@ == self@,
    {
        Hash(self.0.clone())
    }
}

impl Metadata {
    pub fn new(
        visible_name: String,
        parent: Option<String>,
        last_modified: String,
        type_: String,
    ) -> (res: Metadata)
        ensures
            res@ == (MetadataView {
                visible_name: visible_name@,
                parent: match parent {
                    Some(p) => Some(p@),
                    None => None,
                },
                last_modified: last_modified@,
                type_: type_@,
            }),
    {
        Metadata { visible_name, parent, last_modified, type_ }
    }

    /// The name under which the node is shown.
    pub fn visible_name(&self) -> (n: &String)
        ensures
            n@ == self@.visible_name,
    {
        &self.visible_name
    }

    /// The hash of the parent, where one is recorded.
    pub fn parent(&self) -> (p: Option<&String>)
        ensures
            opt_text(p) == self@.parent,
    {
        match &self.parent {
            Some(s) => Some(s),
            None => None,
        }
    }

    /// The kind of the node, as the record spells it.
    pub fn kind(&self) -> (t: &String)
        ensures
            t@ == self@.type_,
    {
        &self.type_
    }

    /// The raw text of the modification time.
    pub fn last_modified(&self) -> (t: &String)
        ensures
            t@ == self@.last_modified,
    {
        &self.last_modified
    }
}

impl Clone for Metadata {
    fn clone(&self) -> (res: Metadata)
        ensures
            res@ == self@,
    {
        let parent = match &self.parent {
            Some(p) => Some(p.clone()),
            None => None,
        };
        Metadata {
            visible_name: self.visible_name.clone(),
            parent,
            last_modified: self.last_modified.clone(),
            type_: self.type_.clone(),
        }
    }
}

/// A node seen as what it is: a file, a directory or a system directory.
#[derive(Debug)]
pub enum AnyNode<'a> {
    File(&'a File),
    Directory(&'a Directory),
    System(&'a SystemDirectory),
}

/// Lets a node of any kind be told apart by a match.
pub trait AsAny {
    fn as_any(&self) -> (r: AnyNode<'_>);
}

impl AsAny for File {
    fn as_any(&self) -> (r: AnyNode<'_>)
        ensures
            r == AnyNode::File(self),
    {
        AnyNode::File(self)
    }
}

impl AsAny for Directory {
    fn as_any(&self) -> (r: AnyNode<'_>)
        ensures
            r == AnyNode::Directory(self),
    {
        AnyNode::Directory(self)
    }
}

impl AsAny for SystemDirectory {
    fn as_any(&self) -> (r: AnyNode<'_>)
        ensures
            r == AnyNode::System(self),
    {
        AnyNode::System(self)
    }
}

/// What every node offers: its identity and its metadata.
pub trait Node {
    /// The hash of the node, as a sequence.
    spec fn hash_model(&self) -> Seq<char>;

    /// The metadata of the node.
    spec fn metadata_model(&self) -> MetadataView;

    fn get_hash(&self) -> (h: &Hash)
        ensures
            h@ == self.hash_model(),
    ;

    fn get_metadata(&self) -> (m: &Metadata)
        ensures
            m@ == self.metadata_model(),
    ;

    fn get_visible_name(&self) -> (n: &String)
        ensures
            n@ == self.metadata_model().visible_name,
    ;

    fn get_parent(&self) -> (p: Option<&String>)
        ensures
            opt_text(p) == self.metadata_model().parent,
    ;
}

/// What every directory-like node offers: its children, and a way to add one.
pub trait DirectoryNode {
    /// The files directly below, in insertion order.
    spec fn files_model(&self) -> Seq<FileView>;

    /// The directories directly below, in insertion order.
    spec fn directories_model(&self) -> Seq<DirectoryView>;

    /// The name of the directory.
    spec fn name_model(&self) -> Seq<char>;

    fn get_directories(&self) -> (d: &Vec<Directory>)
        ensures
            dirs_view(d@) == self.directories_model(),
    ;

    fn get_files(&self) -> (f: &Vec<File>)
        ensures
            files_view(f@) == self.files_model(),
    ;

    fn add_directory(&mut self, directory: Directory)
        ensures
            final(self).directories_model() == old(self).directories_model().push(directory@),
            final(self).files_model() == old(self).files_model(),
            final(self).name_model() == old(self).name_model(),
    ;

    fn add_file(&mut self, file: File)
        ensures
            final(self).files_model() == old(self).files_model().push(file@),
            final(self).directories_model() == old(self).directories_model(),
            final(self).name_model() == old(self).name_model(),
    ;
}

impl File {
    pub fn new(hash: Hash, metadata: Metadata) -> (res: File)
        ensures
            res@ == (FileView { hash: hash@, metadata: metadata@ }),
    {
        File { hash, metadata }
    }

    /// The modification time of the file as a date and a time in UTC. The
    /// recorded text is read as seconds since the start of 1970.
    pub fn get_last_modified(&self) -> (res: Result<String, TimestampError>)
        ensures
            match res {
                Ok(text) => shown_time(self@.metadata.last_modified) == Ok::<
                    Seq<char>,
                    TimestampError,
                >(text@),
                Err(e) => shown_time(self@.metadata.last_modified) == Err::<
                    Seq<char>,
                    TimestampError,
                >(e),
            },
    {
        let seconds = parse_seconds(self.metadata.last_modified().as_str());
        let text = match seconds {
            Some(secs) => format_utc_seconds(secs),
            None => None,
        };
        shown_for(seconds, text)
    }

    /// The name of the file without its document extension: a trailing
    /// `.pdf` or `.epub` is removed, once.
    pub fn get_file_stem(&self) -> (res: String)
        ensures
            res@ == stem(self@.metadata.visible_name),
    {
        let name: &str = self.metadata.visible_name().as_str();
        let n: usize = name.unicode_len();
        if has_suffix(name, ".pdf") {
            let m: usize = ".pdf".unicode_len();
            String::from_str(name.substring_char(0, n - m))
        } else if has_suffix(name, ".epub") {
            let m: usize = ".epub".unicode_len();
            String::from_str(name.substring_char(0, n - m))
        } else {
            String::from_str(name)
        }
    }
}

impl Clone for File {
    fn clone(&self) -> (res: File)
        ensures
            res@ == self@,
    {
        File { hash: self.hash.clone(), metadata: self.metadata.clone() }
    }
}

impl Node for File {
    open spec fn hash_model(&self) -> Seq<char> {
        self@.hash
    }

    open spec fn metadata_model(&self) -> MetadataView {
        self@.metadata
    }

    fn get_hash(&self) -> (h: &Hash) {
        &self.hash
    }

    fn get_metadata(&self) -> (m: &Metadata) {
        &self.metadata
    }

    fn get_visible_name(&self) -> (n: &String) {
        self.metadata.visible_name()
    }

    fn get_parent(&self) -> (p: Option<&String>) {
        self.metadata.parent()
    }
}

/// Copies a vector of files, keeping every view.
pub fn clone_files(files: &Vec<File>) -> (res: Vec<File>)
    ensures
        files_view(res@) == files_view(files@),
{
    let mut out: Vec<File> = Vec::new();
    let mut i: usize = 0;
    while i < files.len()
        invariant
            i <= files.len(),
            out@.len() == i,
            forall|j: int| 0 <= j < i ==> (#[trigger] out@[j])@ == files@[j]@,
        decreases files.len() - i,
    {
        out.push(files[i].clone());
        i += 1;
    }
    assert(files_view(out@) =~= files_view(files@));
    out
}

impl Directory {
    pub fn new(
        hash: Hash,
        metadata: Metadata,
        files: Option<Vec<File>>,
        directories: Option<Vec<Directory>>,
    ) -> (res: Directory)
        ensures
            res@ == (DirectoryView {
                hash: hash@,
                metadata: metadata@,
                files: match files {
                    Some(f) => files_view(f@),
                    None => Seq::empty(),
                },
                directories: match directories {
                    Some(d) => dirs_view(d@),
                    None => Seq::empty(),
                },
            }),
    {
        let files = match files {
            Some(f) => f,
            None => Vec::new(),
        };
        let directories = match directories {
            Some(d) => d,
            None => Vec::new(),
        };
        let res = Directory { hash, metadata, files, directories };
        proof {
            res.lemma_view();
            assert(files_view(Seq::<File>::empty()) =~= Seq::<FileView>::empty());
            assert(dirs_view(Seq::<Directory>::empty()) =~= Seq::<DirectoryView>::empty());
        }
        res
    }

    /// The sub-directories themselves, in insertion order.
    pub closed spec fn children(&self) -> Seq<Directory> {
        self.directories@
    }

    /// Every sub-directory is structurally smaller than its parent, and its
    /// view is the matching entry of the parent's view.
    pub proof fn lemma_child(&self, i: int)
        requires
            0 <= i < self.children().len(),
        ensures
            decreases_to!(self => self.children()[i]),
            self@.directories == dirs_view(self.children()),
            self@.directories[i] == self.children()[i]@,
    {
        self.lemma_view();
    }

    /// The view of a directory, field by field.
    proof fn lemma_view(&self)
        ensures
            self@.hash == self.hash@,
            self@.metadata == self.metadata@,
            self@.files == files_view(self.files@),
            self@.directories == dirs_view(self.directories@),
    {
        let d = self@.directories;
        assert(d.len() == self.directories@.len());
        assert forall|i: int| 0 <= i < d.len() implies d[i] == dirs_view(self.directories@)[i] by {
            assert(d[i] == self.directories@[i]@);
        }
        assert(d =~= dirs_view(self.directories@));
    }
}

impl Clone for Directory {
    fn clone(&self) -> (res: Directory)
        ensures
            res@ == self@,
        decreases self,
    {
        let files = clone_files(&self.files);
        let mut dirs: Vec<Directory> = Vec::new();
        let mut i: usize = 0;
        while i < self.directories.len()
            invariant
                i <= self.directories.len(),
                dirs@.len() == i,
                forall|j: int| 0 <= j < i ==> (#[trigger] dirs@[j])@ == self.directories@[j]@,
            decreases self.directories.len() - i,
        {
            let sub = &self.directories[i];
            dirs.push(sub.clone());
            i += 1;
        }
        let res = Directory {
            hash: self.hash.clone(),
            metadata: self.metadata.clone(),
            files,
            directories: dirs,
        };
        proof {
            res.lemma_view();
            self.lemma_view();
            assert(dirs_view(dirs@) =~= dirs_view(self.directories@));
        }
        res
    }
}

impl Node for Directory {
    open spec fn hash_model(&self) -> Seq<char> {
        self@.hash
    }

    open spec fn metadata_model(&self) -> MetadataView {
        self@.metadata
    }

    fn get_hash(&self) -> (h: &Hash) {
        proof {
            self.lemma_view();
        }
        &self.hash
    }

    fn get_metadata(&self) -> (m: &Metadata) {
        proof {
            self.lemma_view();
        }
        &self.metadata
    }

    fn get_visible_name(&self) -> (n: &String) {
        proof {
            self.lemma_view();
        }
        self.metadata.visible_name()
    }

    fn get_parent(&self) -> (p: Option<&String>) {
        proof {
            self.lemma_view();
        }
        self.metadata.parent()
    }
}

impl DirectoryNode for Directory {
    open spec fn files_model(&self) -> Seq<FileView> {
        self@.files
    }

    open spec fn directories_model(&self) -> Seq<DirectoryView> {
        self@.directories
    }

    open spec fn name_model(&self) -> Seq<char> {
        self@.metadata.visible_name
    }

    fn get_directories(&self) -> (d: &Vec<Directory>)
        ensures
            d@ == self.children(),
    {
        proof {
            self.lemma_view();
        }
        &self.directories
    }

    fn get_files(&self) -> (f: &Vec<File>) {
        proof {
            self.lemma_view();
        }
        &self.files
    }

    fn add_directory(&mut self, directory: Directory)
        ensures
            final(self)@.hash == old(self)@.hash,
            final(self)@.metadata == old(self)@.metadata,
    {
        proof {
            self.lemma_view();
        }
        self.directories.push(directory);
        proof {
            self.lemma_view();
            assert(dirs_view(self.directories@) =~= dirs_view(old(self).directories@).push(
                directory@,
            ));
        }
    }

    fn add_file(&mut self, file: File)
        ensures
            final(self)@.hash == old(self)@.hash,
            final(self)@.metadata == old(self)@.metadata,
    {
        proof {
            self.lemma_view();
        }
        self.files.push(file);
        proof {
            self.lemma_view();
            assert(files_view(self.files@) =~= files_view(old(self).files@).push(file@));
        }
    }
}

impl SystemDirectory {
    pub closed spec fn name_view(&self) -> Seq<char> {
        self.name@
    }

    pub closed spec fn files_seq(&self) -> Seq<FileView> {
        files_view(self.files@)
    }

    pub closed spec fn dirs_seq(&self) -> Seq<DirectoryView> {
        dirs_view(self.directories@)
    }

    pub fn new(name: String, files: Option<Vec<File>>, directories: Option<Vec<Directory>>) -> (res:
        SystemDirectory)
        ensures
            res.name_view() == name@,
            res.files_seq() == match files {
                Some(f) => files_view(f@),
                None => Seq::empty(),
            },
            res.dirs_seq() == match directories {
                Some(d) => dirs_view(d@),
                None => Seq::empty(),
            },
    {
        let files = match files {
            Some(f) => f,
            None => Vec::new(),
        };
        let directories = match directories {
            Some(d) => d,
            None => Vec::new(),
        };
        proof {
            assert(files_view(Seq::<File>::empty()) =~= Seq::<FileView>::empty());
            assert(dirs_view(Seq::<Directory>::empty()) =~= Seq::<DirectoryView>::empty());
        }
        SystemDirectory { name, files, directories }
    }

    /// The name of the directory.
    pub fn get_visible_name(&self) -> (n: &String)
        ensures
            n@ == self.name_view(),
    {
        &self.name
    }

    /// A system directory has no parent.
    pub fn get_parent(&self) -> (p: Option<&String>)
        ensures
            p.is_none(),
    {
        None
    }
}

impl DirectoryNode for SystemDirectory {
    open spec fn files_model(&self) -> Seq<FileView> {
        self.files_seq()
    }

    open spec fn directories_model(&self) -> Seq<DirectoryView> {
        self.dirs_seq()
    }

    open spec fn name_model(&self) -> Seq<char> {
        self.name_view()
    }

    fn get_directories(&self) -> (d: &Vec<Directory>) {
        &self.directories
    }

    fn get_files(&self) -> (f: &Vec<File>) {
        &self.files
    }

    fn add_directory(&mut self, directory: Directory) {
        self.directories.push(directory);
        proof {
            assert(dirs_view(self.directories@) =~= dirs_view(old(self).directories@).push(
                directory@,
            ));
        }
    }

    fn add_file(&mut self, file: File) {
        self.files.push(file);
        proof {
            assert(files_view(self.files@) =~= files_view(old(self).files@).push(file@));
        }
    }
}

} // verus!
