//! The compiler layer: source trees that resolve virtual paths to file
//! contents, diagnostic collection during parsing, and the descriptor
//! database that builds a deduplicated, transitively-closed file descriptor
//! set from root schema files.

use vstd::prelude::*;

use crate::descriptor::{clone_bytes, FileDescriptorProto, FileDescriptorProtoView, FileDescriptorSet};
use crate::parser;
use crate::parser::{DiagKind, RawDiagnostic};
use crate::path;

verus! {

/// How severe a load-time diagnostic is.
#[derive(Debug, Clone, Copy, PartialEq, Eq, Structural, Hash)]
pub enum Severity {
    /// A true error: the file cannot be used.
    Error,
    /// An informational warning.
    Warning,
}

impl Severity {
    /// How the severity renders in diagnostic text.
    pub open spec fn text(self) -> Seq<char> {
        if self is Error {
            seq!['e', 'r', 'r', 'o', 'r']
        } else {
            seq!['w', 'a', 'r', 'n', 'i', 'n', 'g']
        }
    }
}

/// The 1-based position a diagnostic points at.
#[derive(Debug, Clone, Copy, PartialEq, Eq, Structural, Hash)]
pub struct Location {
    /// The 1-based line number.
    pub line: i64,
    /// The 1-based column number.
    pub column: i64,
}

/// Mathematical model of a [`FileLoadError`].
pub struct FileLoadErrorView {
    pub filename: Seq<u8>,
    pub message: Seq<char>,
    pub severity: Severity,
    pub location: Option<Location>,
}

/// A problem encountered while loading a file: where it happened, how severe
/// it is, and a human-readable message. A missing location means the
/// diagnostic applies to the whole file.
#[derive(Debug, Clone, PartialEq, Eq, Hash)]
pub struct FileLoadError {
    /// The virtual path of the file that failed to load.
    pub filename: Vec<u8>,
    /// A message describing the cause.
    pub message: String,
    /// The severity of the diagnostic.
    pub severity: Severity,
    /// The 1-based position, absent when the whole file is meant.
    pub location: Option<Location>,
}

impl View for FileLoadError {
    type V = FileLoadErrorView;

    closed spec fn view(&self) -> FileLoadErrorView {
        FileLoadErrorView {
            filename: self.filename@,
            message: self.message@,
            severity: self.severity,
            location: self.location,
        }
    }
}

/// The bytes of a path read as characters, one per byte.
pub open spec fn latin1(s: Seq<u8>) -> Seq<char> {
    Seq::new(s.len(), |i: int| s[i] as char)
}

/// The decimal digits of `n`, most significant first.
pub open spec fn spec_nat_digits(n: nat) -> Seq<char>
    decreases n,
{
    if n < 10 {
        seq![((48 + n) as u8) as char]
    } else {
        spec_nat_digits(n / 10) + seq![((48 + n % 10) as u8) as char]
    }
}

/// The decimal rendering of `n`, with a leading minus sign when negative.
pub open spec fn spec_int_string(n: int) -> Seq<char> {
    if n < 0 {
        seq!['-'] + spec_nat_digits((-n) as nat)
    } else {
        spec_nat_digits(n as nat)
    }
}

/// The diagnostic text format: `file:line:column: severity: message` when a
/// location is present, `file: severity: message` when absent.
pub open spec fn spec_display(e: FileLoadErrorView) -> Seq<char> {
    let head = latin1(e.filename) + seq![':'];
    let head2 = match e.location {
        Some(loc) => head + spec_int_string(loc.line as int) + seq![':'] + spec_int_string(
            loc.column as int,
        ) + seq![':'],
        None => head,
    };
    head2 + seq![' '] + e.severity.text() + seq![':', ' '] + e.message
}

/// Relies on `String::push`: appends exactly the given character to the
/// string.
#[verifier::external_body]
fn push_char(s: &mut String, c: char)
    ensures
        final(s)@ == old(s)@.push(c),
{
    s.push(c);
}

/// Appends the decimal digits of `n` to `s`.
fn push_u64_digits(s: &mut String, n: u64)
    ensures
        final(s)@ == old(s)@ + spec_nat_digits(n as nat),
    decreases n,
{
    if n >= 10 {
        push_u64_digits(s, n / 10);
        push_char(s, ((48 + (n % 10) as u8) as char));
        proof {
            assert(final(s)@ =~= old(s)@ + spec_nat_digits(n as nat));
        }
    } else {
        push_char(s, ((48 + n as u8) as char));
        proof {
            assert(final(s)@ =~= old(s)@ + spec_nat_digits(n as nat));
        }
    }
}

/// Appends the decimal rendering of `n` to `s`.
fn push_i64(s: &mut String, n: i64)
    ensures
        final(s)@ == old(s)@ + spec_int_string(n as int),
{
    if n < 0 {
        push_char(s, '-');
        let m: u64 = if n == i64::MIN {
            0x8000_0000_0000_0000u64
        } else {
            (-n) as u64
        };
        push_u64_digits(s, m);
        proof {
            assert(final(s)@ =~= old(s)@ + spec_int_string(n as int));
        }
    } else {
        push_u64_digits(s, n as u64);
    }
}

/// Appends the path's bytes to `s`, one character per byte.
fn push_latin1(s: &mut String, bytes: &Vec<u8>)
    ensures
        final(s)@ == old(s)@ + latin1(bytes@),
{
    let mut i: usize = 0;
    while i < bytes.len()
        invariant
            i <= bytes@.len(),
            s@ == old(s)@ + latin1(bytes@).take(i as int),
        decreases bytes@.len() - i,
    {
        push_char(s, bytes[i] as char);
        i += 1;
        proof {
            assert(s@ =~= old(s)@ + latin1(bytes@).take(i as int));
        }
    }
    proof {
        assert(latin1(bytes@).take(bytes@.len() as int) =~= latin1(bytes@));
    }
}

impl Severity {
    /// The severity as display text: `error` or `warning`.
    pub fn as_text(&self) -> (r: String)
        ensures
            r@ == self.text(),
    {
        match self {
            Severity::Error => {
                let mut s = String::new();
                s.append("error");
                proof {
                    reveal_strlit("error");
                    assert(s@ =~= self.text());
                }
                s
            },
            Severity::Warning => {
                let mut s = String::new();
                s.append("warning");
                proof {
                    reveal_strlit("warning");
                    assert(s@ =~= self.text());
                }
                s
            },
        }
    }
}

impl FileLoadError {
    /// Renders the diagnostic in the standard text format:
    /// `file:line:column: severity: message`, leaving out the position part
    /// when the diagnostic applies to the whole file.
    pub fn display_string(&self) -> (r: String)
        ensures
            r@ == spec_display(self@),
    {
        let mut s = String::new();
        push_latin1(&mut s, &self.filename);
        push_char(&mut s, ':');
        match &self.location {
            Some(loc) => {
                push_i64(&mut s, loc.line);
                push_char(&mut s, ':');
                push_i64(&mut s, loc.column);
                push_char(&mut s, ':');
            },
            None => {
            },
        }
        push_char(&mut s, ' ');
        let sev = self.severity.as_text();
        s.append(sev.as_str());
        push_char(&mut s, ':');
        push_char(&mut s, ' ');
        s.append(self.message.as_str());
        proof {
            assert(s@ =~= spec_display(self@));
        }
        s
    }
}

/// An error opening a file: the path was not found, or its syntax was
/// rejected. The message says which.
#[derive(Debug, Clone, PartialEq, Eq, Hash)]
pub struct FileOpenError {
    message: String,
}

impl View for FileOpenError {
    type V = Seq<char>;

    closed spec fn view(&self) -> Seq<char> {
        self.message@
    }
}

impl FileOpenError {
    /// Creates an error carrying the given descriptive message.
    pub fn new(message: String) -> (r: FileOpenError)
        ensures
            r@ == message@,
    {
        FileOpenError { message }
    }

    /// The descriptive message.
    pub fn message(&self) -> (r: &String)
        ensures
            r@ == self@,
    {
        &self.message
    }
}

/// A file was opened but did not parse into a usable descriptor. Details
/// live in the diagnostics sent to the attached error collector.
#[derive(Debug, Clone, Copy, PartialEq, Eq, Structural, Hash)]
pub struct FileNotLoadableError;

/// What one `add_error` or `add_warning` call records: the 0-based position
/// is surfaced 1-based, and a negative line means the whole file.
pub open spec fn diag_of(
    filename: Seq<u8>,
    line: int,
    column: int,
    severity: Severity,
    message: Seq<char>,
) -> FileLoadErrorView {
    FileLoadErrorView {
        filename,
        message,
        severity,
        location: if line >= 0 {
            Some(Location { line: (line + 1) as i64, column: (column + 1) as i64 })
        } else {
            None
        },
    }
}

/// A sink for the diagnostics a parse emits, keyed by file.
///
/// Line and column numbers arrive 0-based; a line of -1 means the diagnostic
/// applies to the whole file. Implementations surface positions 1-based.
pub trait MultiFileErrorCollector {
    /// Everything collected so far, in arrival order.
    spec fn diagnostics(&self) -> Seq<FileLoadErrorView>;

    /// Records an error at the given position.
    fn add_error(&mut self, filename: &Vec<u8>, line: i32, column: i32, message: String)
        ensures
            final(self).diagnostics() == old(self).diagnostics().push(
                diag_of(filename@, line as int, column as int, Severity::Error, message@),
            ),
    ;

    /// Records a warning at the given position.
    fn add_warning(&mut self, filename: &Vec<u8>, line: i32, column: i32, message: String)
        ensures
            final(self).diagnostics() == old(self).diagnostics().push(
                diag_of(filename@, line as int, column as int, Severity::Warning, message@),
            ),
    ;
}

/// A [`MultiFileErrorCollector`] that buffers diagnostics in memory for
/// later retrieval, in arrival order.
pub struct SimpleErrorCollector {
    errors: Vec<FileLoadError>,
}

impl View for SimpleErrorCollector {
    type V = Seq<FileLoadErrorView>;

    closed spec fn view(&self) -> Seq<FileLoadErrorView> {
        Seq::new(self.errors@.len(), |i: int| self.errors@[i]@)
    }
}

impl SimpleErrorCollector {
    /// Creates an empty collector.
    pub fn new() -> (r: SimpleErrorCollector)
        ensures
            r@ == Seq::<FileLoadErrorView>::empty(),
    {
        let r = SimpleErrorCollector { errors: Vec::new() };
        proof {
            assert(r@ =~= Seq::<FileLoadErrorView>::empty());
        }
        r
    }

    /// The buffered diagnostics, oldest first.
    pub fn errors(&self) -> (r: &Vec<FileLoadError>)
        ensures
            r@.len() == self@.len(),
            forall|i: int| 0 <= i < r@.len() ==> r@[i]@ == self@[i],
    {
        &self.errors
    }
}

impl SimpleErrorCollector {
    /// What the collector has collected is exactly its own sequence view, so
    /// facts about [`Self::errors`] compose with the trait's `add_error` and
    /// `add_warning` contracts.
    pub proof fn lemma_diagnostics_is_view(&self)
        ensures
            self.diagnostics() == self@,
    {
    }
}

impl MultiFileErrorCollector for SimpleErrorCollector {
    closed spec fn diagnostics(&self) -> Seq<FileLoadErrorView> {
        self@
    }

    fn add_error(&mut self, filename: &Vec<u8>, line: i32, column: i32, message: String) {
        let location = if line >= 0 {
            Some(Location { line: line as i64 + 1, column: column as i64 + 1 })
        } else {
            None
        };
        self.errors.push(
            FileLoadError {
                filename: clone_bytes(filename),
                message,
                severity: Severity::Error,
                location,
            },
        );
        proof {
            assert(self@ =~= old(self)@.push(
                diag_of(filename@, line as int, column as int, Severity::Error, message@),
            ));
        }
    }

    fn add_warning(&mut self, filename: &Vec<u8>, line: i32, column: i32, message: String) {
        let location = if line >= 0 {
            Some(Location { line: line as i64 + 1, column: column as i64 + 1 })
        } else {
            None
        };
        self.errors.push(
            FileLoadError {
                filename: clone_bytes(filename),
                message,
                severity: Severity::Warning,
                location,
            },
        );
        proof {
            assert(self@ =~= old(self)@.push(
                diag_of(filename@, line as int, column as int, Severity::Warning, message@),
            ));
        }
    }
}

} // verus!

use vstd::prelude::*;

verus! {

/// An ordered association list of virtual paths to contents; later entries
/// never repeat an earlier key.
pub open spec fn entries_map(entries: Seq<(Vec<u8>, Vec<u8>)>) -> Map<Seq<u8>, Seq<u8>>
    decreases entries.len(),
{
    if entries.len() == 0 {
        Map::empty()
    } else {
        entries_map(entries.drop_last()).insert(entries.last().0@, entries.last().1@)
    }
}

/// Whether an association list's keys are pairwise distinct.
pub open spec fn entries_unique(entries: Seq<(Vec<u8>, Vec<u8>)>) -> bool {
    forall|i: int, j: int|
        0 <= i < j < entries.len() ==> #[trigger] entries[i].0@ != #[trigger] entries[j].0@
}

/// The dominion of an association list is finite.
proof fn lemma_entries_map_finite(entries: Seq<(Vec<u8>, Vec<u8>)>)
    ensures
        entries_map(entries).dom().finite(),
    decreases entries.len(),
{
    if entries.len() > 0 {
        lemma_entries_map_finite(entries.drop_last());
    }
}

/// With distinct keys, each entry is in the map with its own value.
proof fn lemma_entries_map_index(entries: Seq<(Vec<u8>, Vec<u8>)>, i: int)
    requires
        entries_unique(entries),
        0 <= i < entries.len(),
    ensures
        entries_map(entries).dom().contains(entries[i].0@),
        entries_map(entries)[entries[i].0@] == entries[i].1@,
    decreases entries.len(),
{
    if i == entries.len() - 1 {
    } else {
        assert(entries.drop_last()[i] == entries[i]);
        lemma_entries_map_index(entries.drop_last(), i);
        assert(entries[i].0@ != entries.last().0@);
    }
}

/// Every key in the map belongs to some entry.
proof fn lemma_entries_map_dom(entries: Seq<(Vec<u8>, Vec<u8>)>, k: Seq<u8>)
    requires
        entries_map(entries).dom().contains(k),
    ensures
        exists|i: int| 0 <= i < entries.len() && #[trigger] entries[i].0@ == k,
    decreases entries.len(),
{
    if entries.len() > 0 {
        if entries.last().0@ == k {
            assert(entries[entries.len() - 1].0@ == k);
        } else {
            lemma_entries_map_dom(entries.drop_last(), k);
            let i = choose|i: int|
                0 <= i < entries.drop_last().len() && #[trigger] entries.drop_last()[i].0@ == k;
            assert(entries[i].0@ == k);
        }
    }
}

/// Replacing an entry's value in place is one map insert.
proof fn lemma_entries_map_update(entries: Seq<(Vec<u8>, Vec<u8>)>, i: int, p: (Vec<u8>, Vec<u8>))
    requires
        entries_unique(entries),
        0 <= i < entries.len(),
        p.0@ == entries[i].0@,
    ensures
        entries_map(entries.update(i, p)) == entries_map(entries).insert(p.0@, p.1@),
    decreases entries.len(),
{
    let upd = entries.update(i, p);
    if i == entries.len() - 1 {
        assert(upd.drop_last() =~= entries.drop_last());
        assert(upd.last() == p);
        assert(entries_map(upd) == entries_map(entries.drop_last()).insert(p.0@, p.1@));
        assert(entries_map(entries.drop_last()).insert(p.0@, p.1@) =~= entries_map(
            entries,
        ).insert(p.0@, p.1@));
    } else {
        assert(upd.drop_last() =~= entries.drop_last().update(i, p));
        assert(upd.last() == entries.last());
        assert(entries.drop_last()[i] == entries[i]);
        lemma_entries_map_update(entries.drop_last(), i, p);
        assert(p.0@ != entries.last().0@);
        assert(entries_map(entries.drop_last()).insert(p.0@, p.1@).insert(
            entries.last().0@,
            entries.last().1@,
        ) =~= entries_map(entries.drop_last()).insert(entries.last().0@, entries.last().1@).insert(
            p.0@,
            p.1@,
        ));
    }
}

/// A directory tree containing schema files: resolves a virtual path to the
/// file's bytes.
pub trait SourceTree {
    /// The virtual-path-to-content mapping this tree resolves.
    spec fn tree(&self) -> Map<Seq<u8>, Seq<u8>>;

    /// Opens the file at the given virtual path and returns its content;
    /// fails exactly when the tree has no file under that path.
    fn open(&mut self, filename: &Vec<u8>) -> (r: Result<Vec<u8>, FileOpenError>)
        ensures
            final(self).tree() == old(self).tree(),
            match r {
                Ok(content) => old(self).tree().dom().contains(filename@) && content@ == old(
                    self,
                ).tree()[filename@],
                Err(e) => !old(self).tree().dom().contains(filename@) && e@ == (
                "File not found.")@,
            },
    ;

    /// The tree resolves finitely many paths.
    proof fn tree_dom_finite(&self)
        ensures
            self.tree().dom().finite(),
    ;
}

/// A [`SourceTree`] that stores files in memory.
pub struct VirtualSourceTree {
    files: Vec<(Vec<u8>, Vec<u8>)>,
}

impl View for VirtualSourceTree {
    type V = Map<Seq<u8>, Seq<u8>>;

    closed spec fn view(&self) -> Map<Seq<u8>, Seq<u8>> {
        entries_map(self.files@)
    }
}

impl VirtualSourceTree {
    /// The files never repeat a virtual path.
    #[verifier::type_invariant]
    spec fn wf(self) -> bool {
        entries_unique(self.files@)
    }

    /// Creates an empty virtual source tree.
    pub fn new() -> (r: VirtualSourceTree)
        ensures
            r@ == Map::<Seq<u8>, Seq<u8>>::empty(),
    {
        VirtualSourceTree { files: Vec::new() }
    }

    /// Adds a file under the given virtual path, replacing any file already
    /// stored there.
    pub fn add_file(&mut self, filename: Vec<u8>, contents: Vec<u8>)
        ensures
            final(self)@ == old(self)@.insert(filename@, contents@),
    {
        proof {
            use_type_invariant(&*self);
        }
        let mut files: Vec<(Vec<u8>, Vec<u8>)> = Vec::new();
        core::mem::swap(&mut files, &mut self.files);
        let ghost orig = files@;
        let n = files.len();
        let mut i: usize = 0;
        while i < n
            invariant
                n == files@.len(),
                i <= n,
                entries_unique(files@),
                files@ == orig,
                entries_map(orig) == old(self)@,
                forall|k: int| 0 <= k < i ==> #[trigger] files@[k].0@ != filename@,
            decreases n - i,
        {
            if parser::eq_bytes(&files[i].0, filename.as_slice()) {
                proof {
                    lemma_entries_map_update(files@, i as int, (filename, contents));
                    assert forall|a: int, b: int|
                        0 <= a < b < files@.update(i as int, (filename, contents)).len()
                            implies #[trigger] files@.update(i as int, (filename, contents))[a].0@
                            != #[trigger] files@.update(i as int, (filename, contents))[b].0@ by {
                        assert(files@[a].0@ != files@[b].0@);
                    }
                }
                files.set(i, (filename, contents));
                proof {
                    assert(files@ =~= orig.update(i as int, (filename, contents)));
                    assert(entries_map(files@) == entries_map(orig).insert(filename@, contents@));
                }
                self.files = files;
                proof {
                    assert(self@ == entries_map(orig).insert(filename@, contents@));
                    assert(old(self)@ == entries_map(orig));
                }
                return ;
            }
            i += 1;
        }
        proof {
            assert forall|a: int, b: int|
                0 <= a < b < files@.push((filename, contents)).len() implies #[trigger] files@.push(
                (filename, contents),
            )[a].0@ != #[trigger] files@.push((filename, contents))[b].0@ by {
                if b < files@.len() {
                    assert(files@[a].0@ != files@[b].0@);
                } else {
                    assert(files@[a].0@ != filename@);
                }
            }
            assert(files@.push((filename, contents)).drop_last() =~= files@);
        }
        files.push((filename, contents));
        self.files = files;
    }
}

impl VirtualSourceTree {
    /// The tree a virtual source tree resolves is exactly its own map view,
    /// so facts about `add_file` compose with [`SourceTree::open`].
    pub proof fn lemma_tree_is_view(&self)
        ensures
            self.tree() == self@,
    {
    }
}

impl SourceTree for VirtualSourceTree {
    closed spec fn tree(&self) -> Map<Seq<u8>, Seq<u8>> {
        self@
    }

    proof fn tree_dom_finite(&self) {
        lemma_entries_map_finite(self.files@);
    }

    fn open(&mut self, filename: &Vec<u8>) -> (r: Result<Vec<u8>, FileOpenError>) {
        proof {
            use_type_invariant(&*self);
        }
        let n = self.files.len();
        let mut i: usize = 0;
        while i < n
            invariant
                n == self.files@.len(),
                i <= n,
                entries_unique(self.files@),
                self.files@ == old(self).files@,
                forall|k: int| 0 <= k < i ==> #[trigger] self.files@[k].0@ != filename@,
            decreases n - i,
        {
            if parser::eq_bytes(&self.files[i].0, filename.as_slice()) {
                let content = clone_bytes(&self.files[i].1);
                proof {
                    lemma_entries_map_index(self.files@, i as int);
                }
                return Ok(content);
            }
            i += 1;
        }
        proof {
            if self@.dom().contains(filename@) {
                lemma_entries_map_dom(self.files@, filename@);
            }
        }
        let mut msg = String::new();
        msg.append("File not found.");
        proof {
            assert(msg@ =~= ("File not found.")@);
        }
        Err(FileOpenError::new(msg))
    }
}

/// A source tree that locates files on disk through an ordered list of
/// virtual-prefix-to-disk-path mappings.
///
/// This type holds the resolution policy: [`Self::candidates`] rejects
/// ill-formed virtual paths and otherwise lists, in mapping order, the
/// physical paths to try; whichever caller performs the actual file I/O
/// opens them in order and takes the first success.
pub struct DiskSourceTree {
    mappings: Vec<(Vec<u8>, Vec<u8>)>,
}

impl View for DiskSourceTree {
    type V = Seq<(Seq<u8>, Seq<u8>)>;

    closed spec fn view(&self) -> Seq<(Seq<u8>, Seq<u8>)> {
        Seq::new(self.mappings@.len(), |i: int| (self.mappings@[i].0@, self.mappings@[i].1@))
    }
}

impl DiskSourceTree {
    /// Creates a disk source tree with no mappings.
    pub fn new() -> (r: DiskSourceTree)
        ensures
            r@ == Seq::<(Seq<u8>, Seq<u8>)>::empty(),
    {
        let r = DiskSourceTree { mappings: Vec::new() };
        proof {
            assert(r@ =~= Seq::<(Seq<u8>, Seq<u8>)>::empty());
        }
        r
    }

    /// Maps a virtual path prefix to a location on disk; mappings are tried
    /// in the order they were added.
    pub fn map_path(&mut self, virtual_path: Vec<u8>, disk_path: Vec<u8>)
        ensures
            final(self)@ == old(self)@.push((virtual_path@, disk_path@)),
    {
        self.mappings.push((virtual_path, disk_path));
        proof {
            assert(self@ =~= old(self)@.push((virtual_path@, disk_path@)));
        }
    }

    /// The physical paths to try for the given virtual path, in mapping
    /// order; fails, before any mapping is considered, exactly when the path
    /// contains a backslash, consecutive slashes, or a `.` or `..` segment.
    pub fn candidates(&self, virtual_path: &Vec<u8>) -> (r: Result<Vec<Vec<u8>>, FileOpenError>)
        ensures
            match r {
                Ok(c) => path::path_ok(virtual_path@) && parser::bytes_list_view(c@)
                    == path::spec_candidates(self@, virtual_path@),
                Err(e) => !path::path_ok(virtual_path@) && e@ == (
                "Backslashes, consecutive slashes, \".\", or \"..\" are not allowed in the virtual path")@,
            },
    {
        if !path::validate_virtual_path(virtual_path) {
            let mut msg = String::new();
            msg.append(
                "Backslashes, consecutive slashes, \".\", or \"..\" are not allowed in the virtual path",
            );
            return Err(FileOpenError::new(msg));
        }
        let mut out: Vec<Vec<u8>> = Vec::new();
        let n = self.mappings.len();
        let mut i: usize = 0;
        proof {
            assert(self@.skip(0) =~= self@);
            assert(parser::bytes_list_view(out@) + path::spec_candidates(self@, virtual_path@)
                =~= path::spec_candidates(self@, virtual_path@));
        }
        while i < n
            invariant
                n == self.mappings@.len(),
                self@.len() == n,
                i <= n,
                path::spec_candidates(self@, virtual_path@) == parser::bytes_list_view(out@)
                    + path::spec_candidates(self@.skip(i as int), virtual_path@),
            decreases n - i,
        {
            proof {
                assert(self@.skip(i as int)[0] == self@[i as int]);
                assert(self@.skip(i as int).skip(1) =~= self@.skip(i as int + 1));
            }
            if path::check_prefix_matches(&self.mappings[i].0, virtual_path) {
                let cand = path::build_candidate(
                    &self.mappings[i].0,
                    &self.mappings[i].1,
                    virtual_path,
                );
                let ghost pre = out@;
                out.push(cand);
                proof {
                    assert(parser::bytes_list_view(out@) =~= parser::bytes_list_view(pre).push(
                        cand@,
                    ));
                    assert(parser::bytes_list_view(pre).push(cand@) + path::spec_candidates(
                        self@.skip(i as int + 1),
                        virtual_path@,
                    ) =~= parser::bytes_list_view(pre) + (seq![cand@] + path::spec_candidates(
                        self@.skip(i as int + 1),
                        virtual_path@,
                    )));
                }
            }
            i += 1;
        }
        proof {
            assert(self@.skip(n as int) =~= Seq::<(Seq<u8>, Seq<u8>)>::empty());
            assert(parser::bytes_list_view(out@) + Seq::<Seq<u8>>::empty()
                =~= parser::bytes_list_view(out@));
        }
        Ok(out)
    }
}

} // verus!

use vstd::prelude::*;
use crate::descriptor::DescriptorProtoView;

verus! {

/// What loading a file through a source tree yields: the parsed descriptor,
/// carrying the file's own virtual path as its name; or nothing when the path
/// is absent from the tree or the file fails to parse.
pub open spec fn spec_load(tree: Map<Seq<u8>, Seq<u8>>, name: Seq<u8>) -> Option<
    FileDescriptorProtoView,
> {
    if !tree.dom().contains(name) {
        None
    } else {
        match parser::spec_parse(tree[name]).file {
            Some(fp) => Some(
                FileDescriptorProtoView {
                    name,
                    dependency: fp.deps,
                    message_type: fp.msgs.map_values(|n: Seq<u8>| DescriptorProtoView { name: n }),
                },
            ),
            None => None,
        }
    }
}

/// A set of paths that resolution cannot leave: it holds every root, every
/// member loads, and every dependency of a member is a member. Resolution
/// succeeds exactly when such a set exists.
pub open spec fn closed_loadable(
    tree: Map<Seq<u8>, Seq<u8>>,
    roots: Seq<Seq<u8>>,
    s: Set<Seq<u8>>,
) -> bool {
    &&& forall|i: int| 0 <= i < roots.len() ==> s.contains(#[trigger] roots[i])
    &&& forall|p: Seq<u8>| #[trigger] s.contains(p) ==> spec_load(tree, p) is Some
    &&& forall|p: Seq<u8>, k: int|
        s.contains(p) && 0 <= k < spec_load(tree, p)->Some_0.dependency.len() ==> s.contains(
            #[trigger] spec_load(tree, p)->Some_0.dependency[k],
        )
}

/// The severity a parse diagnostic surfaces with.
pub open spec fn kind_severity(kind: DiagKind) -> Severity {
    if kind.is_warning() {
        Severity::Warning
    } else {
        Severity::Error
    }
}

/// The message text for each parse diagnostic.
pub open spec fn spec_diag_message(kind: DiagKind) -> Seq<char> {
    match kind {
        DiagKind::UnexpectedChar => ("Unexpected character.")@,
        DiagKind::UnexpectedToken => ("Unknown declaration.")@,
        DiagKind::UnterminatedString => ("Unterminated string literal.")@,
        DiagKind::UnterminatedMessage => (
        "Reached end of input in message definition (missing '}').")@,
        DiagKind::ExpectedEquals => ("Expected \"=\".")@,
        DiagKind::ExpectedString => ("Expected string literal.")@,
        DiagKind::ExpectedSemicolon => ("Expected \";\".")@,
        DiagKind::ExpectedName => ("Expected message name.")@,
        DiagKind::ExpectedBrace => ("Expected \"{\".")@,
        DiagKind::UnexpectedEnd => ("Reached end of input.")@,
        DiagKind::MessageNameStyle => ("Message name should be in UpperCamelCase.")@,
    }
}

/// Positions saturate at the widest value the diagnostic interface carries.
pub open spec fn clamp_i32(n: int) -> int {
    if n > i32::MAX {
        i32::MAX as int
    } else {
        n
    }
}

/// How a raw parse diagnostic surfaces through the error collector: 0-based
/// positions become 1-based.
pub open spec fn raw_to_load(name: Seq<u8>, d: RawDiagnostic) -> FileLoadErrorView {
    diag_of(
        name,
        clamp_i32(d.line as int),
        clamp_i32(d.col as int),
        kind_severity(d.kind),
        spec_diag_message(d.kind),
    )
}

/// The diagnostics one load attempt sends to an attached collector: a single
/// whole-file error when the path cannot be opened, and the parser's
/// diagnostics otherwise.
pub open spec fn load_diags(tree: Map<Seq<u8>, Seq<u8>>, name: Seq<u8>) -> Seq<FileLoadErrorView> {
    if !tree.dom().contains(name) {
        seq![diag_of(name, -1, -1, Severity::Error, ("File not found.")@)]
    } else {
        parser::spec_parse(tree[name]).diags.map_values(|d: RawDiagnostic| raw_to_load(name, d))
    }
}

/// What an attached collector holds after one load attempt.
pub open spec fn collected_after(
    pre: Option<Seq<FileLoadErrorView>>,
    tree: Map<Seq<u8>, Seq<u8>>,
    name: Seq<u8>,
) -> Option<Seq<FileLoadErrorView>> {
    match pre {
        Some(b) => Some(b + load_diags(tree, name)),
        None => None,
    }
}

/// Whether `post` holds everything `pre` held, in order, possibly followed by
/// more: diagnostics already collected persist.
pub open spec fn collector_extended(
    pre: Option<Seq<FileLoadErrorView>>,
    post: Option<Seq<FileLoadErrorView>>,
) -> bool {
    match pre {
        None => post is None,
        Some(b) => post is Some && post->Some_0.len() >= b.len() && post->Some_0.take(
            b.len() as int,
        ) == b,
    }
}

/// The message text for each parse diagnostic, as display text.
pub fn diag_message(kind: DiagKind) -> (r: String)
    ensures
        r@ == spec_diag_message(kind),
{
    let mut s = String::new();
    match kind {
        DiagKind::UnexpectedChar => {
            s.append("Unexpected character.");
        },
        DiagKind::UnexpectedToken => {
            s.append("Unknown declaration.");
        },
        DiagKind::UnterminatedString => {
            s.append("Unterminated string literal.");
        },
        DiagKind::UnterminatedMessage => {
            s.append("Reached end of input in message definition (missing '}').");
        },
        DiagKind::ExpectedEquals => {
            s.append("Expected \"=\".");
        },
        DiagKind::ExpectedString => {
            s.append("Expected string literal.");
        },
        DiagKind::ExpectedSemicolon => {
            s.append("Expected \";\".");
        },
        DiagKind::ExpectedName => {
            s.append("Expected message name.");
        },
        DiagKind::ExpectedBrace => {
            s.append("Expected \"{\".");
        },
        DiagKind::UnexpectedEnd => {
            s.append("Reached end of input.");
        },
        DiagKind::MessageNameStyle => {
            s.append("Message name should be in UpperCamelCase.");
        },
    }
    proof {
        assert(s@ =~= spec_diag_message(kind));
    }
    s
}

/// Abstract interface for a database of descriptors, looked up by file name.
///
/// The trait itself promises nothing; the verified contract lives on the
/// concrete [`SourceTreeDescriptorDatabase::find_file_by_name`].
pub trait DescriptorDatabase {
    /// Finds a file by its virtual path.
    fn find_file_by_name(&mut self, filename: &Vec<u8>) -> Result<
        FileDescriptorProto,
        FileNotLoadableError,
    >;
}

/// A descriptor database that loads files from a [`SourceTree`] and parses
/// them, optionally reporting diagnostics to an attached
/// [`SimpleErrorCollector`].
pub struct SourceTreeDescriptorDatabase<T: SourceTree> {
    source_tree: T,
    error_collector: Option<SimpleErrorCollector>,
}

impl<T: SourceTree> SourceTreeDescriptorDatabase<T> {
    /// The virtual-path-to-content mapping the database loads from.
    pub closed spec fn tree(&self) -> Map<Seq<u8>, Seq<u8>> {
        self.source_tree.tree()
    }

    /// The diagnostics of the attached collector, when one is attached.
    pub closed spec fn collected(&self) -> Option<Seq<FileLoadErrorView>> {
        match self.error_collector {
            Some(c) => Some(c@),
            None => None,
        }
    }

    /// Constructs a database over the given source tree, with no collector
    /// attached.
    pub fn new(source_tree: T) -> (r: SourceTreeDescriptorDatabase<T>)
        ensures
            r.tree() == source_tree.tree(),
            r.collected() is None,
    {
        SourceTreeDescriptorDatabase { source_tree, error_collector: None }
    }

    /// Attaches a collector; parse and open diagnostics are reported to it.
    /// This should be called before loading anything.
    pub fn record_errors_to(&mut self, error_collector: SimpleErrorCollector)
        ensures
            final(self).tree() == old(self).tree(),
            final(self).collected() == Some(error_collector@),
    {
        self.error_collector = Some(error_collector);
    }

    /// Detaches and returns the collector, with everything reported so far.
    pub fn take_error_collector(&mut self) -> (r: Option<SimpleErrorCollector>)
        ensures
            final(self).tree() == old(self).tree(),
            final(self).collected() is None,
            match r {
                Some(c) => old(self).collected() == Some(c@),
                None => old(self).collected() is None,
            },
    {
        let mut r: Option<SimpleErrorCollector> = None;
        core::mem::swap(&mut r, &mut self.error_collector);
        r
    }

    /// Sends the diagnostics of one load attempt to the attached collector,
    /// if any.
    fn report_diags(&mut self, filename: &Vec<u8>, diags: &Vec<RawDiagnostic>)
        ensures
            final(self).tree() == old(self).tree(),
            final(self).collected() == match old(self).collected() {
                Some(b) => Some(
                    b + diags@.map_values(|d: RawDiagnostic| raw_to_load(filename@, d)),
                ),
                None => None,
            },
    {
        let ghost mapped = diags@.map_values(|d: RawDiagnostic| raw_to_load(filename@, d));
        match &mut self.error_collector {
            Some(c) => {
                let ghost base = c@;
                let mut i: usize = 0;
                while i < diags.len()
                    invariant
                        i <= diags@.len(),
                        mapped == diags@.map_values(
                            |d: RawDiagnostic| raw_to_load(filename@, d),
                        ),
                        c.diagnostics() == c@,
                        c@ == base + mapped.take(i as int),
                    decreases diags@.len() - i,
                {
                    let d = diags[i];
                    let msg = diag_message(d.kind);
                    let line: i32 = if d.line >= 0x7fff_ffff {
                        0x7fff_ffff
                    } else {
                        d.line as i32
                    };
                    let col: i32 = if d.col >= 0x7fff_ffff {
                        0x7fff_ffff
                    } else {
                        d.col as i32
                    };
                    let warning = match d.kind {
                        DiagKind::MessageNameStyle => true,
                        _ => false,
                    };
                    if warning {
                        c.add_warning(filename, line, col, msg);
                    } else {
                        c.add_error(filename, line, col, msg);
                    }
                    i += 1;
                    proof {
                        assert(mapped[i - 1] == raw_to_load(filename@, diags@[i - 1]));
                        assert(c@ =~= base + mapped.take(i as int));
                    }
                }
                proof {
                    assert(mapped.take(mapped.len() as int) =~= mapped);
                }
            },
            None => {
            },
        }
    }

    /// Opens `filename` through the source tree and parses it into a file
    /// descriptor named by that path, forwarding diagnostics (positions made
    /// 1-based) to the attached collector. Fails exactly when the file cannot
    /// be opened or its parse emits an error; the diagnostics then carry the
    /// detail.
    pub fn find_file_by_name(&mut self, filename: &Vec<u8>) -> (r: Result<
        FileDescriptorProto,
        FileNotLoadableError,
    >)
        ensures
            final(self).tree() == old(self).tree(),
            final(self).collected() == collected_after(
                old(self).collected(),
                old(self).tree(),
                filename@,
            ),
            match r {
                Ok(fd) => spec_load(old(self).tree(), filename@) == Some(fd@),
                Err(_) => spec_load(old(self).tree(), filename@) is None,
            },
    {
        let content = match self.source_tree.open(filename) {
            Ok(c) => c,
            Err(e) => {
                match &mut self.error_collector {
                    Some(c) => {
                        let msg = e.message().clone();
                        c.add_error(filename, -1, -1, msg);
                    },
                    None => {
                    },
                }
                proof {
                    if old(self).collected() is Some {
                        assert(final(self).collected()->Some_0 =~= old(
                            self,
                        ).collected()->Some_0 + load_diags(old(self).tree(), filename@));
                    }
                }
                return Err(FileNotLoadableError);
            },
        };
        let (parsed, diags) = parser::parse(&content);
        self.report_diags(filename, &diags);
        proof {
            assert(diags@.map_values(|d: RawDiagnostic| raw_to_load(filename@, d)) == load_diags(
                old(self).tree(),
                filename@,
            ));
        }
        match parsed {
            Some((deps, msgs)) => {
                let ghost fp = parser::spec_parse(content@).file->Some_0;
                let mut fd = FileDescriptorProto::new();
                fd.set_name(clone_bytes(filename));
                let mut i: usize = 0;
                while i < deps.len()
                    invariant
                        i <= deps@.len(),
                        parser::bytes_list_view(deps@) == fp.deps,
                        fd@.name == filename@,
                        fd@.message_type == Seq::<DescriptorProtoView>::empty(),
                        fd@.dependency == fp.deps.take(i as int),
                    decreases deps@.len() - i,
                {
                    fd.add_dependency(clone_bytes(&deps[i]));
                    i += 1;
                    proof {
                        assert(fd@.dependency =~= fp.deps.take(i as int));
                    }
                }
                proof {
                    assert(fp.deps.take(fp.deps.len() as int) =~= fp.deps);
                }
                let mut j: usize = 0;
                while j < msgs.len()
                    invariant
                        j <= msgs@.len(),
                        parser::bytes_list_view(msgs@) == fp.msgs,
                        fd@.name == filename@,
                        fd@.dependency == fp.deps,
                        fd@.message_type == fp.msgs.map_values(
                            |n: Seq<u8>| DescriptorProtoView { name: n },
                        ).take(j as int),
                    decreases msgs@.len() - j,
                {
                    let mut m = crate::descriptor::DescriptorProto::new();
                    m.set_name(clone_bytes(&msgs[j]));
                    fd.add_message_type(m);
                    j += 1;
                    proof {
                        assert(fp.msgs.map_values(|n: Seq<u8>| DescriptorProtoView { name: n })[j
                            - 1] == DescriptorProtoView { name: fp.msgs[j - 1] });
                        assert(fd@.message_type =~= fp.msgs.map_values(
                            |n: Seq<u8>| DescriptorProtoView { name: n },
                        ).take(j as int));
                    }
                }
                proof {
                    let mapped = fp.msgs.map_values(|n: Seq<u8>| DescriptorProtoView { name: n });
                    assert(mapped.take(mapped.len() as int) =~= mapped);
                    assert(spec_load(old(self).tree(), filename@) == Some(fd@));
                }
                Ok(fd)
            },
            None => Err(FileNotLoadableError),
        }
    }
}

impl<T: SourceTree> DescriptorDatabase for SourceTreeDescriptorDatabase<T> {
    fn find_file_by_name(&mut self, filename: &Vec<u8>) -> Result<
        FileDescriptorProto,
        FileNotLoadableError,
    > {
        self.find_file_by_name(filename)
    }
}

} // verus!

use vstd::prelude::*;

verus! {

/// The names of the files in a descriptor sequence, in order.
pub open spec fn names_of(files: Seq<FileDescriptorProtoView>) -> Seq<Seq<u8>> {
    files.map_values(|f: FileDescriptorProtoView| f.name)
}

/// The views of the descriptors on the work stack.
pub open spec fn views_of(stack: Seq<FileDescriptorProto>) -> Seq<FileDescriptorProtoView> {
    Seq::new(stack.len(), |i: int| stack[i]@)
}

/// The resolver's working invariant: every seen path comes from the tree and
/// sits exactly once in the output or on the work stack, entries are mutually
/// distinct descriptors loaded from their own names, and every dependency of
/// an output entry has been seen.
spec fn resolver_inv(
    tree: Map<Seq<u8>, Seq<u8>>,
    seenv: Seq<Seq<u8>>,
    outv: Seq<FileDescriptorProtoView>,
    stackv: Seq<FileDescriptorProtoView>,
) -> bool {
    &&& seenv.no_duplicates()
    &&& forall|j: int| 0 <= j < seenv.len() ==> tree.dom().contains(#[trigger] seenv[j])
    &&& forall|j: int|
        0 <= j < seenv.len() ==> names_of(outv).contains(#[trigger] seenv[j]) || names_of(
            stackv,
        ).contains(seenv[j])
    &&& forall|j: int| 0 <= j < outv.len() ==> seenv.contains(#[trigger] outv[j].name)
    &&& forall|j: int| 0 <= j < stackv.len() ==> seenv.contains(#[trigger] stackv[j].name)
    &&& forall|j: int| 0 <= j < outv.len() ==> spec_load(tree, outv[j].name) == Some(
        #[trigger] outv[j],
    )
    &&& forall|j: int| 0 <= j < stackv.len() ==> spec_load(tree, stackv[j].name) == Some(
        #[trigger] stackv[j],
    )
    &&& forall|i: int, j: int|
        0 <= i < j < outv.len() ==> #[trigger] outv[i].name != #[trigger] outv[j].name
    &&& forall|i: int, j: int|
        0 <= i < j < stackv.len() ==> #[trigger] stackv[i].name != #[trigger] stackv[j].name
    &&& forall|i: int, j: int|
        0 <= i < outv.len() && 0 <= j < stackv.len() ==> #[trigger] outv[i].name
            != #[trigger] stackv[j].name
    &&& forall|i: int, k: int|
        0 <= i < outv.len() && 0 <= k < outv[i].dependency.len() ==> seenv.contains(
            #[trigger] outv[i].dependency[k],
        )
}

/// Every seen path belongs to every closed loadable set: the resolver never
/// visits a path that resolution could avoid.
spec fn seen_in_every_closed(
    tree: Map<Seq<u8>, Seq<u8>>,
    rootsv: Seq<Seq<u8>>,
    seenv: Seq<Seq<u8>>,
) -> bool {
    forall|j: int, s: Set<Seq<u8>>|
        0 <= j < seenv.len() && #[trigger] closed_loadable(tree, rootsv, s) ==> s.contains(
            #[trigger] seenv[j],
        )
}

/// A sequence of distinct members of a finite set is no longer than the set.
proof fn lemma_seen_bound(seenv: Seq<Seq<u8>>, dom: Set<Seq<u8>>)
    requires
        seenv.no_duplicates(),
        dom.finite(),
        forall|j: int| 0 <= j < seenv.len() ==> dom.contains(#[trigger] seenv[j]),
    ensures
        seenv.len() <= dom.len(),
{
    seenv.unique_seq_to_set();
    assert forall|p: Seq<u8>| #[trigger] seenv.to_set().contains(p) implies dom.contains(p) by {
        let j = choose|j: int| 0 <= j < seenv.len() && seenv[j] == p;
        assert(dom.contains(seenv[j]));
    }
    vstd::set_lib::lemma_len_subset(seenv.to_set(), dom);
}

/// A newly seen member of the tree keeps the visited count within the tree.
proof fn lemma_seen_bound_push(tree: Map<Seq<u8>, Seq<u8>>, seenv: Seq<Seq<u8>>, p: Seq<u8>)
    requires
        tree.dom().finite(),
        seenv.no_duplicates(),
        !seenv.contains(p),
        forall|j: int| 0 <= j < seenv.len() ==> tree.dom().contains(#[trigger] seenv[j]),
        tree.dom().contains(p),
    ensures
        seenv.push(p).len() <= tree.dom().len(),
{
    let seenv2 = seenv.push(p);
    assert forall|i: int, j: int| 0 <= i < j < seenv2.len() implies seenv2[i] != seenv2[j] by {
        if j < seenv.len() {
            assert(seenv[i] != seenv[j]);
        } else {
            assert(seenv.contains(seenv[i]));
        }
    }
    assert(seenv2.no_duplicates());
    assert forall|j: int| 0 <= j < seenv2.len() implies tree.dom().contains(
        #[trigger] seenv2[j],
    ) by {
        if j < seenv.len() {
            assert(tree.dom().contains(seenv[j]));
        }
    }
    lemma_seen_bound(seenv2, tree.dom());
}

/// Pushing onto a sequence preserves membership of everything already there.
proof fn lemma_push_preserves_contains(s: Seq<Seq<u8>>, y: Seq<u8>)
    ensures
        forall|x: Seq<u8>| s.contains(x) ==> #[trigger] s.push(y).contains(x),
        s.push(y).contains(y),
{
    assert forall|x: Seq<u8>| s.contains(x) implies #[trigger] s.push(y).contains(x) by {
        let q = choose|q: int| 0 <= q < s.len() && s[q] == x;
        assert(s.push(y)[q] == x);
    }
    assert(s.push(y)[s.len() as int] == y);
}

/// Whether the path is among the seen ones.
fn contains_path(seen: &Vec<Vec<u8>>, p: &Vec<u8>) -> (r: bool)
    ensures
        r == parser::bytes_list_view(seen@).contains(p@),
{
    let n = seen.len();
    let mut i: usize = 0;
    while i < n
        invariant
            n == seen@.len(),
            i <= n,
            forall|k: int| 0 <= k < i ==> #[trigger] seen@[k]@ != p@,
        decreases n - i,
    {
        if parser::eq_bytes(&seen[i], p.as_slice()) {
            proof {
                assert(parser::bytes_list_view(seen@)[i as int] == p@);
            }
            return true;
        }
        i += 1;
    }
    proof {
        if parser::bytes_list_view(seen@).contains(p@) {
            let j = choose|j: int| 0 <= j < seen@.len() && parser::bytes_list_view(seen@)[j] == p@;
            assert(seen@[j]@ == p@);
        }
    }
    false
}

/// Pushing a newly loaded descriptor and its path preserves the resolver
/// invariant, provided the path was unseen, loads to exactly that descriptor,
/// and names it.
proof fn lemma_resolver_push(
    tree: Map<Seq<u8>, Seq<u8>>,
    seenv: Seq<Seq<u8>>,
    outv: Seq<FileDescriptorProtoView>,
    stackv: Seq<FileDescriptorProtoView>,
    fv: FileDescriptorProtoView,
    p: Seq<u8>,
)
    requires
        resolver_inv(tree, seenv, outv, stackv),
        !seenv.contains(p),
        spec_load(tree, p) == Some(fv),
        fv.name == p,
    ensures
        resolver_inv(tree, seenv.push(p), outv, stackv.push(fv)),
{
    let seenv2 = seenv.push(p);
    let stackv2 = stackv.push(fv);
    assert forall|i: int, j: int| 0 <= i < j < seenv2.len() implies seenv2[i] != seenv2[j] by {
        if j < seenv.len() {
            assert(seenv[i] != seenv[j]);
        } else {
            assert(seenv.contains(seenv[i]));
        }
    }
    assert(seenv2.no_duplicates());
    assert forall|j: int|
        0 <= j < seenv2.len() implies names_of(outv).contains(#[trigger] seenv2[j]) || names_of(
        stackv2,
    ).contains(seenv2[j]) by {
        if j < seenv.len() {
            if names_of(stackv).contains(seenv[j]) {
                let q = choose|q: int|
                    0 <= q < names_of(stackv).len() && names_of(stackv)[q] == seenv[j];
                assert(names_of(stackv2)[q] == seenv[j]);
            }
        } else {
            assert(names_of(stackv2)[stackv.len() as int] == p);
        }
    }
    assert forall|j: int| 0 <= j < outv.len() implies seenv2.contains(#[trigger] outv[j].name) by {
        let q = choose|q: int| 0 <= q < seenv.len() && seenv[q] == outv[j].name;
        assert(seenv2[q] == outv[j].name);
    }
    assert forall|j: int| 0 <= j < stackv2.len() implies seenv2.contains(
        #[trigger] stackv2[j].name,
    ) by {
        if j < stackv.len() {
            let q = choose|q: int| 0 <= q < seenv.len() && seenv[q] == stackv[j].name;
            assert(seenv2[q] == stackv[j].name);
        } else {
            assert(seenv2[seenv.len() as int] == p);
        }
    }
    assert forall|i: int, j: int| 0 <= i < j < stackv2.len() implies #[trigger] stackv2[i].name
        != #[trigger] stackv2[j].name by {
        if j < stackv.len() {
            assert(stackv[i].name != stackv[j].name);
        } else {
            assert(seenv.contains(stackv[i].name));
        }
    }
    assert forall|i: int, j: int|
        0 <= i < outv.len() && 0 <= j < stackv2.len() implies #[trigger] outv[i].name
            != #[trigger] stackv2[j].name by {
        if j < stackv.len() {
            assert(outv[i].name != stackv[j].name);
        } else {
            assert(seenv.contains(outv[i].name));
        }
    }
    assert forall|i: int, k: int|
        0 <= i < outv.len() && 0 <= k < outv[i].dependency.len() implies seenv2.contains(
        #[trigger] outv[i].dependency[k],
    ) by {
        let q = choose|q: int| 0 <= q < seenv.len() && seenv[q] == outv[i].dependency[k];
        assert(seenv2[q] == outv[i].dependency[k]);
    }
}

/// The order of the two top stack entries does not matter to the invariant.
proof fn lemma_resolver_swap_top(
    tree: Map<Seq<u8>, Seq<u8>>,
    seenv: Seq<Seq<u8>>,
    outv: Seq<FileDescriptorProtoView>,
    stackv: Seq<FileDescriptorProtoView>,
    a: FileDescriptorProtoView,
    b: FileDescriptorProtoView,
)
    requires
        resolver_inv(tree, seenv, outv, stackv.push(b).push(a)),
    ensures
        resolver_inv(tree, seenv, outv, stackv.push(a).push(b)),
{
    let s1 = stackv.push(b).push(a);
    let s2 = stackv.push(a).push(b);
    let n = stackv.len() as int;
    assert forall|j: int|
        0 <= j < seenv.len() implies names_of(outv).contains(#[trigger] seenv[j]) || names_of(
        s2,
    ).contains(seenv[j]) by {
        if names_of(s1).contains(seenv[j]) {
            let q = choose|q: int| 0 <= q < s1.len() && names_of(s1)[q] == seenv[j];
            if q < n {
                assert(names_of(s2)[q] == seenv[j]);
            } else if q == n {
                assert(names_of(s2)[n + 1] == seenv[j]);
            } else {
                assert(names_of(s2)[n] == seenv[j]);
            }
        }
    }
    assert forall|j: int| 0 <= j < s2.len() implies seenv.contains(#[trigger] s2[j].name)
        && spec_load(tree, s2[j].name) == Some(s2[j]) by {
        if j < n {
            assert(s2[j] == s1[j]);
        } else if j == n {
            assert(s2[j] == s1[n + 1]);
        } else {
            assert(s2[j] == s1[n]);
        }
    }
    assert forall|i: int, j: int| 0 <= i < j < s2.len() implies #[trigger] s2[i].name
        != #[trigger] s2[j].name by {
        let i1: int = if i == n {
            n + 1
        } else if i == n + 1 {
            n
        } else {
            i
        };
        let j1: int = if j == n {
            n + 1
        } else if j == n + 1 {
            n
        } else {
            j
        };
        assert(s2[i] == s1[i1]);
        assert(s2[j] == s1[j1]);
        if i1 < j1 {
            assert(s1[i1].name != s1[j1].name);
        } else {
            assert(s1[j1].name != s1[i1].name);
        }
    }
    assert forall|i: int, j: int|
        0 <= i < outv.len() && 0 <= j < s2.len() implies #[trigger] outv[i].name
            != #[trigger] s2[j].name by {
        let j1: int = if j == n {
            n + 1
        } else if j == n + 1 {
            n
        } else {
            j
        };
        assert(s2[j] == s1[j1]);
        assert(outv[i].name != s1[j1].name);
    }
}

/// Moving the finished top-of-stack descriptor into the output preserves the
/// invariant, once all of its dependencies have been seen.
proof fn lemma_resolver_finish_file(
    tree: Map<Seq<u8>, Seq<u8>>,
    seenv: Seq<Seq<u8>>,
    outv: Seq<FileDescriptorProtoView>,
    stackv: Seq<FileDescriptorProtoView>,
    fv: FileDescriptorProtoView,
)
    requires
        resolver_inv(tree, seenv, outv, stackv.push(fv)),
        forall|q: int| 0 <= q < fv.dependency.len() ==> seenv.contains(#[trigger] fv.dependency[q]),
    ensures
        resolver_inv(tree, seenv, outv.push(fv), stackv),
{
    let s1 = stackv.push(fv);
    let outv2 = outv.push(fv);
    let n = stackv.len() as int;
    assert(spec_load(tree, s1[n].name) == Some(s1[n]));
    assert forall|j: int|
        0 <= j < seenv.len() implies names_of(outv2).contains(#[trigger] seenv[j]) || names_of(
        stackv,
    ).contains(seenv[j]) by {
        if names_of(outv).contains(seenv[j]) {
            let q = choose|q: int| 0 <= q < outv.len() && names_of(outv)[q] == seenv[j];
            assert(names_of(outv2)[q] == seenv[j]);
        } else {
            assert(names_of(s1).contains(seenv[j]));
            let q = choose|q: int| 0 <= q < s1.len() && names_of(s1)[q] == seenv[j];
            if q < n {
                assert(names_of(stackv)[q] == seenv[j]);
            } else {
                assert(names_of(outv2)[outv.len() as int] == seenv[j]);
            }
        }
    }
    assert forall|j: int| 0 <= j < outv2.len() implies seenv.contains(#[trigger] outv2[j].name)
        && spec_load(tree, outv2[j].name) == Some(outv2[j]) by {
        if j < outv.len() {
            assert(outv2[j] == outv[j]);
        } else {
            assert(outv2[j] == s1[n]);
        }
    }
    assert forall|j: int| 0 <= j < stackv.len() implies seenv.contains(#[trigger] stackv[j].name)
        && spec_load(tree, stackv[j].name) == Some(stackv[j]) by {
        assert(stackv[j] == s1[j]);
    }
    assert forall|i: int, j: int| 0 <= i < j < outv2.len() implies #[trigger] outv2[i].name
        != #[trigger] outv2[j].name by {
        if j < outv.len() {
            assert(outv[i].name != outv[j].name);
        } else {
            assert(outv[i].name != s1[n].name);
        }
    }
    assert forall|i: int, j: int| 0 <= i < j < stackv.len() implies #[trigger] stackv[i].name
        != #[trigger] stackv[j].name by {
        assert(s1[i].name != s1[j].name);
    }
    assert forall|i: int, j: int|
        0 <= i < outv2.len() && 0 <= j < stackv.len() implies #[trigger] outv2[i].name
            != #[trigger] stackv[j].name by {
        if i < outv.len() {
            assert(outv[i].name != s1[j].name);
        } else {
            assert(s1[j].name != s1[n].name);
        }
    }
    assert forall|i: int, k: int|
        0 <= i < outv2.len() && 0 <= k < outv2[i].dependency.len() implies seenv.contains(
        #[trigger] outv2[i].dependency[k],
    ) by {
        if i < outv.len() {
            assert(seenv.contains(outv[i].dependency[k]));
        } else {
            assert(seenv.contains(fv.dependency[k]));
        }
    }
}

} // verus!

use vstd::prelude::*;

verus! {

/// Collector extension composes across one more load that appended `extra`.
proof fn lemma_collected_extends_step(
    base: Option<Seq<FileLoadErrorView>>,
    mid: Option<Seq<FileLoadErrorView>>,
    post: Option<Seq<FileLoadErrorView>>,
    extra: Seq<FileLoadErrorView>,
)
    requires
        collector_extended(base, mid),
        mid is Some ==> post is Some && post->Some_0 == mid->Some_0 + extra,
        mid is None ==> post is None,
    ensures
        collector_extended(base, post),
{
    if base is Some {
        let b = base->Some_0;
        let m = mid->Some_0;
        assert(post->Some_0.take(b.len() as int) =~= m.take(b.len() as int));
    }
}

impl<T: SourceTree> SourceTreeDescriptorDatabase<T> {
    /// Builds a file descriptor set containing every file reachable from the
    /// given roots by following imports.
    ///
    /// The call succeeds exactly when some set of paths holds the roots,
    /// loads entirely, and is closed under dependencies. On success the
    /// result holds no two entries with the same path, every entry was
    /// loaded from its own path, every root is present, every dependency of
    /// an entry is itself present, and nothing unreachable sneaks in: each
    /// entry's path belongs to every closed loadable set. On any single
    /// failure the whole call fails with no partial output, though
    /// diagnostics already sent to an attached collector persist.
    pub fn build_file_descriptor_set(&mut self, roots: &Vec<Vec<u8>>) -> (r: Result<
        FileDescriptorSet,
        FileNotLoadableError,
    >)
        ensures
            final(self).tree() == old(self).tree(),
            collector_extended(old(self).collected(), final(self).collected()),
            (r is Ok) <==> (exists|s: Set<Seq<u8>>|
                closed_loadable(old(self).tree(), parser::bytes_list_view(roots@), s)),
            match r {
                Ok(out) => {
                    &&& forall|i: int, j: int|
                        0 <= i < j < out@.file.len() ==> #[trigger] out@.file[i].name
                            != #[trigger] out@.file[j].name
                    &&& forall|i: int, k: int|
                        0 <= i < out@.file.len() && 0 <= k < out@.file[i].dependency.len()
                            ==> names_of(out@.file).contains(#[trigger] out@.file[i].dependency[k])
                    &&& forall|i: int|
                        0 <= i < roots@.len() ==> names_of(out@.file).contains(
                            #[trigger] roots@[i]@,
                        )
                    &&& forall|j: int|
                        0 <= j < out@.file.len() ==> spec_load(old(self).tree(), out@.file[j].name)
                            == Some(#[trigger] out@.file[j])
                    &&& forall|j: int, s: Set<Seq<u8>>|
                        0 <= j < out@.file.len() && #[trigger] closed_loadable(
                            old(self).tree(),
                            parser::bytes_list_view(roots@),
                            s,
                        ) ==> s.contains(#[trigger] out@.file[j].name)
                },
                Err(_) => true,
            },
    {
        let ghost tree = self.tree();
        let ghost rootsv = parser::bytes_list_view(roots@);
        proof {
            self.source_tree.tree_dom_finite();
        }
        let mut out = FileDescriptorSet::new();
        let mut seen: Vec<Vec<u8>> = Vec::new();
        let mut stack: Vec<FileDescriptorProto> = Vec::new();
        let mut i: usize = 0;
        proof {
            assert(out@.file =~= Seq::<FileDescriptorProtoView>::empty());
            assert(parser::bytes_list_view(seen@) =~= Seq::<Seq<u8>>::empty());
            assert(views_of(stack@) =~= Seq::<FileDescriptorProtoView>::empty());
            if old(self).collected() is Some {
                let b = old(self).collected()->Some_0;
                assert(b.take(b.len() as int) =~= b);
            }
        }
        while i < roots.len()
            invariant
                i <= roots@.len(),
                tree.dom().finite(),
                self.tree() == tree,
                tree == old(self).tree(),
                rootsv == parser::bytes_list_view(roots@),
                collector_extended(old(self).collected(), self.collected()),
                out@.file.len() == 0,
                resolver_inv(tree, parser::bytes_list_view(seen@), out@.file, views_of(stack@)),
                seen_in_every_closed(tree, rootsv, parser::bytes_list_view(seen@)),
                parser::bytes_list_view(seen@).len() <= tree.dom().len(),
                forall|j: int|
                    0 <= j < i ==> parser::bytes_list_view(seen@).contains(#[trigger] rootsv[j]),
            decreases roots@.len() - i,
        {
            let ghost seenv = parser::bytes_list_view(seen@);
            let ghost stack1v = views_of(stack@);
            if !contains_path(&seen, &roots[i]) {
                let ghost pre_collected = self.collected();
                match self.find_file_by_name(&roots[i]) {
                    Ok(fd) => {
                        stack.push(fd);
                        seen.push(clone_bytes(&roots[i]));
                        proof {
                            lemma_collected_extends_step(
                                old(self).collected(),
                                pre_collected,
                                self.collected(),
                                load_diags(tree, rootsv[i as int]),
                            );
                            assert(parser::bytes_list_view(seen@) =~= seenv.push(
                                rootsv[i as int],
                            ));
                            assert(views_of(stack@) =~= stack1v.push(fd@));
                            lemma_resolver_push(
                                tree,
                                seenv,
                                out@.file,
                                stack1v,
                                fd@,
                                rootsv[i as int],
                            );
                            lemma_seen_bound_push(tree, seenv, rootsv[i as int]);
                            assert forall|j: int, s: Set<Seq<u8>>|
                                0 <= j < seenv.push(rootsv[i as int]).len()
                                    && #[trigger] closed_loadable(tree, rootsv, s) implies s.contains(
                                #[trigger] seenv.push(rootsv[i as int])[j],
                            ) by {
                                if j < seenv.len() {
                                    assert(s.contains(seenv[j]));
                                } else {
                                    assert(s.contains(rootsv[i as int]));
                                }
                            }
                            lemma_push_preserves_contains(seenv, rootsv[i as int]);
                        }
                    },
                    Err(e) => {
                        proof {
                            lemma_collected_extends_step(
                                old(self).collected(),
                                pre_collected,
                                self.collected(),
                                load_diags(tree, rootsv[i as int]),
                            );
                            assert forall|s: Set<Seq<u8>>| !closed_loadable(tree, rootsv, s) by {
                                if closed_loadable(tree, rootsv, s) {
                                    assert(s.contains(rootsv[i as int]));
                                }
                            }
                        }
                        return Err(e);
                    },
                }
            }
            proof {
                let seenv2 = parser::bytes_list_view(seen@);
                assert forall|j: int| 0 <= j < i + 1 implies seenv2.contains(
                    #[trigger] rootsv[j],
                ) by {
                    if j < i {
                        assert(seenv.contains(rootsv[j]));
                        let q = choose|q: int| 0 <= q < seenv.len() && seenv[q] == rootsv[j];
                        assert(seenv2[q] == rootsv[j]);
                    } else {
                        if seenv.contains(rootsv[j]) {
                            let q = choose|q: int| 0 <= q < seenv.len() && seenv[q] == rootsv[j];
                            assert(seenv2[q] == rootsv[j]);
                        } else {
                            assert(seenv2[seenv.len() as int] == rootsv[j]);
                        }
                    }
                }
            }
            i += 1;
        }
        while stack.len() > 0
            invariant
                tree.dom().finite(),
                self.tree() == tree,
                tree == old(self).tree(),
                rootsv == parser::bytes_list_view(roots@),
                collector_extended(old(self).collected(), self.collected()),
                resolver_inv(tree, parser::bytes_list_view(seen@), out@.file, views_of(stack@)),
                seen_in_every_closed(tree, rootsv, parser::bytes_list_view(seen@)),
                parser::bytes_list_view(seen@).len() <= tree.dom().len(),
                forall|j: int|
                    0 <= j < rootsv.len() ==> parser::bytes_list_view(seen@).contains(
                        #[trigger] rootsv[j],
                    ),
            decreases tree.dom().len() - parser::bytes_list_view(seen@).len(), stack@.len(),
        {
            let ghost seen_start = parser::bytes_list_view(seen@).len();
            let ghost stack_start = stack@.len();
            let ghost pre_stack = stack@;
            let file = match stack.pop() {
                Some(f) => f,
                None => {
                    return Err(FileNotLoadableError);
                },
            };
            proof {
                assert(pre_stack =~= stack@.push(file));
                assert(views_of(stack@.push(file)) =~= views_of(stack@).push(file@));
                assert(views_of(stack@).push(file@)[views_of(stack@).len() as int] == file@);
                assert(spec_load(tree, file@.name) == Some(file@));
            }
            let deps_len = file.dependency_size();
            let mut k: usize = 0;
            while k < deps_len
                invariant
                    tree.dom().finite(),
                    self.tree() == tree,
                    tree == old(self).tree(),
                    rootsv == parser::bytes_list_view(roots@),
                    collector_extended(old(self).collected(), self.collected()),
                    deps_len == file@.dependency.len(),
                    k <= deps_len,
                    spec_load(tree, file@.name) == Some(file@),
                    resolver_inv(
                        tree,
                        parser::bytes_list_view(seen@),
                        out@.file,
                        views_of(stack@).push(file@),
                    ),
                    seen_in_every_closed(tree, rootsv, parser::bytes_list_view(seen@)),
                    parser::bytes_list_view(seen@).len() <= tree.dom().len(),
                    parser::bytes_list_view(seen@).len() >= seen_start,
                    stack@.len() + 1 - stack_start == parser::bytes_list_view(seen@).len()
                        - seen_start,
                    forall|j: int|
                        0 <= j < rootsv.len() ==> parser::bytes_list_view(seen@).contains(
                            #[trigger] rootsv[j],
                        ),
                    forall|q: int|
                        0 <= q < k ==> parser::bytes_list_view(seen@).contains(
                            #[trigger] file@.dependency[q],
                        ),
                decreases deps_len - k,
            {
                let ghost seenv = parser::bytes_list_view(seen@);
                let ghost stack1v = views_of(stack@);
                let dep = file.dependency(k);
                if !contains_path(&seen, dep) {
                    let ghost pre_collected = self.collected();
                    match self.find_file_by_name(dep) {
                        Ok(fd) => {
                            proof {
                                lemma_collected_extends_step(
                                    old(self).collected(),
                                    pre_collected,
                                    self.collected(),
                                    load_diags(tree, dep@),
                                );
                                assert(views_of(stack@).push(file@)[views_of(stack@).len() as int]
                                    == file@);
                                assert(seenv.contains(file@.name));
                                assert forall|s: Set<Seq<u8>>|
                                    #[trigger] closed_loadable(tree, rootsv, s) implies s.contains(
                                    dep@,
                                ) by {
                                    let idx = choose|idx: int|
                                        0 <= idx < seenv.len() && seenv[idx] == file@.name;
                                    assert(s.contains(seenv[idx]));
                                    assert(spec_load(tree, file@.name)->Some_0.dependency[k as int]
                                        == dep@);
                                    assert(s.contains(
                                        spec_load(tree, file@.name)->Some_0.dependency[k as int],
                                    ));
                                }
                                lemma_seen_bound_push(tree, seenv, dep@);
                            }
                            stack.push(fd);
                            seen.push(clone_bytes(dep));
                            proof {
                                assert(parser::bytes_list_view(seen@) =~= seenv.push(dep@));
                                assert(views_of(stack@) =~= stack1v.push(fd@));
                                lemma_resolver_push(
                                    tree,
                                    seenv,
                                    out@.file,
                                    stack1v.push(file@),
                                    fd@,
                                    dep@,
                                );
                                lemma_resolver_swap_top(
                                    tree,
                                    seenv.push(dep@),
                                    out@.file,
                                    stack1v,
                                    fd@,
                                    file@,
                                );
                                assert forall|j: int, s: Set<Seq<u8>>|
                                    0 <= j < seenv.push(dep@).len() && #[trigger] closed_loadable(
                                        tree,
                                        rootsv,
                                        s,
                                    ) implies s.contains(#[trigger] seenv.push(dep@)[j]) by {
                                    if j < seenv.len() {
                                        assert(s.contains(seenv[j]));
                                    } else {
                                        assert(s.contains(dep@));
                                    }
                                }
                                lemma_push_preserves_contains(seenv, dep@);
                            }
                        },
                        Err(e) => {
                            proof {
                                lemma_collected_extends_step(
                                    old(self).collected(),
                                    pre_collected,
                                    self.collected(),
                                    load_diags(tree, dep@),
                                );
                                assert(views_of(stack@).push(file@)[views_of(stack@).len() as int]
                                    == file@);
                                assert(seenv.contains(file@.name));
                                assert forall|s: Set<Seq<u8>>|
                                    !closed_loadable(tree, rootsv, s) by {
                                    if closed_loadable(tree, rootsv, s) {
                                        let idx = choose|idx: int|
                                            0 <= idx < seenv.len() && seenv[idx] == file@.name;
                                        assert(s.contains(seenv[idx]));
                                        assert(s.contains(
                                            spec_load(
                                                tree,
                                                file@.name,
                                            )->Some_0.dependency[k as int],
                                        ));
                                    }
                                }
                            }
                            return Err(e);
                        },
                    }
                }
                proof {
                    let seenv2 = parser::bytes_list_view(seen@);
                    assert(seenv2.contains(file@.dependency[k as int]));
                    assert forall|q: int| 0 <= q < k + 1 implies seenv2.contains(
                        #[trigger] file@.dependency[q],
                    ) by {
                        if q < k {
                            assert(seenv.contains(file@.dependency[q]));
                            if seenv2 != seenv {
                                let w = choose|w: int|
                                    0 <= w < seenv.len() && seenv[w] == file@.dependency[q];
                                assert(seenv2[w] == file@.dependency[q]);
                            }
                        }
                    }
                }
                k += 1;
            }
            let ghost pre_out = out@.file;
            let ghost fv = file@;
            out.push_file(file);
            proof {
                assert(out@.file =~= pre_out.push(fv));
                lemma_resolver_finish_file(
                    tree,
                    parser::bytes_list_view(seen@),
                    pre_out,
                    views_of(stack@),
                    fv,
                );
            }
        }
        let ghost seenv = parser::bytes_list_view(seen@);
        let ghost outv = out@.file;
        let ghost witness = Set::new(|p: Seq<u8>| names_of(outv).contains(p));
        proof {
            assert(views_of(stack@).len() == 0);
            assert forall|j: int| 0 <= j < seenv.len() implies names_of(outv).contains(
                #[trigger] seenv[j],
            ) by {
                if names_of(views_of(stack@)).contains(seenv[j]) {
                    let q = choose|q: int|
                        0 <= q < views_of(stack@).len() && names_of(views_of(stack@))[q]
                            == seenv[j];
                }
            }
            assert forall|i: int, k: int|
                0 <= i < outv.len() && 0 <= k < outv[i].dependency.len() implies names_of(
                outv,
            ).contains(#[trigger] outv[i].dependency[k]) by {
                assert(seenv.contains(outv[i].dependency[k]));
                let j = choose|j: int| 0 <= j < seenv.len() && seenv[j] == outv[i].dependency[k];
                assert(names_of(outv).contains(seenv[j]));
            }
            assert forall|i: int| 0 <= i < roots@.len() implies names_of(outv).contains(
                #[trigger] roots@[i]@,
            ) by {
                assert(rootsv[i] == roots@[i]@);
                assert(seenv.contains(rootsv[i]));
                let j = choose|j: int| 0 <= j < seenv.len() && seenv[j] == rootsv[i];
                assert(names_of(outv).contains(seenv[j]));
            }
            assert forall|j: int, s: Set<Seq<u8>>|
                0 <= j < outv.len() && #[trigger] closed_loadable(tree, rootsv, s) implies s.contains(
                #[trigger] outv[j].name,
            ) by {
                assert(seenv.contains(outv[j].name));
                let q = choose|q: int| 0 <= q < seenv.len() && seenv[q] == outv[j].name;
                assert(s.contains(seenv[q]));
            }
            assert(closed_loadable(tree, rootsv, witness)) by {
                assert forall|i: int| 0 <= i < rootsv.len() implies witness.contains(
                    #[trigger] rootsv[i],
                ) by {
                    assert(names_of(outv).contains(roots@[i]@));
                }
                assert forall|p: Seq<u8>| #[trigger] witness.contains(p) implies spec_load(
                    tree,
                    p,
                ) is Some by {
                    let j = choose|j: int| 0 <= j < names_of(outv).len() && names_of(outv)[j] == p;
                    assert(spec_load(tree, outv[j].name) == Some(outv[j]));
                }
                assert forall|p: Seq<u8>, k: int|
                    witness.contains(p) && 0 <= k < spec_load(tree, p)->Some_0.dependency.len()
                        implies witness.contains(
                    #[trigger] spec_load(tree, p)->Some_0.dependency[k],
                ) by {
                    let j = choose|j: int| 0 <= j < names_of(outv).len() && names_of(outv)[j] == p;
                    assert(spec_load(tree, outv[j].name) == Some(outv[j]));
                    assert(names_of(outv).contains(outv[j].dependency[k]));
                }
            }
        }
        Ok(out)
    }
}

} // verus!
