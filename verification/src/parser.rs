//! The schema-file parser: turns the bytes of a `.proto`-style file into its
//! import dependencies and top-level message-type names, collecting
//! diagnostics with 0-based line and column positions along the way.
//!
//! The grammar covers `syntax = "..."` declarations, `import "path";`
//! statements, and `message Name { ... }` blocks whose bodies are skipped
//! with brace counting. Parsing stops at the first error; style warnings
//! accumulate. The parser is a byte-at-a-time state machine, and the
//! executable code is proved equal to the specification machine
//! [`spec_parse`].

use vstd::prelude::*;

verus! {

/// What a parse found worth reporting.
#[derive(Clone, Copy, Debug, PartialEq, Eq, Structural)]
pub enum DiagKind {
    /// A byte that cannot start any declaration.
    UnexpectedChar,
    /// A word that is not a known declaration keyword.
    UnexpectedToken,
    /// A string literal with no closing quote on its line.
    UnterminatedString,
    /// End of input inside a message body (a missing closing brace).
    UnterminatedMessage,
    /// Something other than `=` after `syntax`.
    ExpectedEquals,
    /// Something other than a string literal where one is required.
    ExpectedString,
    /// Something other than `;` after a declaration.
    ExpectedSemicolon,
    /// Something other than a name after `message`.
    ExpectedName,
    /// Something other than `{` after a message name.
    ExpectedBrace,
    /// End of input in the middle of a declaration.
    UnexpectedEnd,
    /// A message name that is not in UpperCamelCase.
    MessageNameStyle,
}

impl DiagKind {
    /// Whether a diagnostic of this kind is a warning rather than an error.
    pub open spec fn is_warning(self) -> bool {
        self is MessageNameStyle
    }
}

/// A diagnostic as the parser emits it, with 0-based line and column.
#[derive(Clone, Copy, Debug, PartialEq, Eq, Structural)]
pub struct RawDiagnostic {
    pub kind: DiagKind,
    pub line: usize,
    pub col: usize,
}

/// Where in a file the parser stands.
#[derive(Clone, Copy, Debug, PartialEq, Eq, Structural)]
pub enum ParseMode {
    /// Between declarations, expecting a keyword or end of input.
    Top,
    /// Reading a keyword into the accumulator.
    Word,
    /// After `syntax`, expecting `=`.
    ExpectEquals,
    /// After `syntax =`, expecting the opening quote.
    ExpectSyntaxString,
    /// After `import`, expecting the opening quote.
    ExpectImportString,
    /// Inside the `syntax` string literal, whose content is not recorded.
    SyntaxString,
    /// Inside an `import` string literal, accumulating the path.
    ImportString,
    /// After a completed declaration, expecting `;`.
    ExpectSemicolon,
    /// After `message`, expecting the type name.
    ExpectName,
    /// Reading a message-type name into the accumulator.
    Name,
    /// After a message name, expecting `{`.
    ExpectBrace,
    /// Inside a message body, counting braces.
    Body,
    /// A fatal diagnostic has been recorded; input is ignored from here on.
    Failed,
}

/// Mathematical model of the parser state.
pub struct ParserStateView {
    pub mode: ParseMode,
    pub line: usize,
    pub col: usize,
    pub tok_line: usize,
    pub tok_col: usize,
    pub acc: Seq<u8>,
    pub depth: usize,
    pub deps: Seq<Seq<u8>>,
    pub msgs: Seq<Seq<u8>>,
    pub warnings: Seq<RawDiagnostic>,
    pub error: Option<RawDiagnostic>,
}

/// What the parser found in a file: the imported paths and the top-level
/// message-type names, in order of appearance.
pub struct FileParseView {
    pub deps: Seq<Seq<u8>>,
    pub msgs: Seq<Seq<u8>>,
}

/// How a whole parse ended: the parsed file unless a fatal diagnostic was
/// recorded, and every diagnostic emitted.
pub struct ParseOutcome {
    pub file: Option<FileParseView>,
    pub diags: Seq<RawDiagnostic>,
}

/// Whitespace bytes: space, tab, carriage return, newline.
pub open spec fn is_space(b: u8) -> bool {
    b == 32 || b == 9 || b == 13 || b == 10
}

/// Bytes that may start an identifier: letters and underscore.
pub open spec fn is_ident_start(b: u8) -> bool {
    (65 <= b && b <= 90) || (97 <= b && b <= 122) || b == 95
}

/// Bytes that may continue an identifier: letters, digits, underscore, dot.
pub open spec fn is_ident_byte(b: u8) -> bool {
    is_ident_start(b) || (48 <= b && b <= 57) || b == 46
}

/// The bytes of the keyword `syntax`.
pub open spec fn kw_syntax() -> Seq<u8> {
    seq![115u8, 121u8, 110u8, 116u8, 97u8, 120u8]
}

/// The bytes of the keyword `import`.
pub open spec fn kw_import() -> Seq<u8> {
    seq![105u8, 109u8, 112u8, 111u8, 114u8, 116u8]
}

/// The bytes of the keyword `message`.
pub open spec fn kw_message() -> Seq<u8> {
    seq![109u8, 101u8, 115u8, 115u8, 97u8, 103u8, 101u8]
}

/// Whether a message-type name follows the UpperCamelCase convention: it
/// starts with an upper-case letter and holds no underscore.
pub open spec fn camel_ok(name: Seq<u8>) -> bool {
    &&& name.len() > 0
    &&& 65 <= name[0] && name[0] <= 90
    &&& forall|i: int| 0 <= i < name.len() ==> name[i] != 95
}

/// The state a parse starts from.
pub open spec fn init_state() -> ParserStateView {
    ParserStateView {
        mode: ParseMode::Top,
        line: 0,
        col: 0,
        tok_line: 0,
        tok_col: 0,
        acc: Seq::empty(),
        depth: 0,
        deps: Seq::empty(),
        msgs: Seq::empty(),
        warnings: Seq::empty(),
        error: None,
    }
}

/// Records a fatal diagnostic at the given 0-based position and freezes the
/// machine.
pub open spec fn spec_fail(
    st: ParserStateView,
    kind: DiagKind,
    line: usize,
    col: usize,
) -> ParserStateView {
    ParserStateView {
        mode: ParseMode::Failed,
        error: Some(RawDiagnostic { kind, line, col }),
        ..st
    }
}

/// Finishes the token in the accumulator: a keyword selects what comes next,
/// and a message name is recorded, with a style warning when it is not
/// UpperCamelCase.
pub open spec fn spec_end_token(st: ParserStateView) -> ParserStateView {
    if st.mode is Word {
        if st.acc == kw_syntax() {
            ParserStateView { mode: ParseMode::ExpectEquals, acc: Seq::empty(), ..st }
        } else if st.acc == kw_import() {
            ParserStateView { mode: ParseMode::ExpectImportString, acc: Seq::empty(), ..st }
        } else if st.acc == kw_message() {
            ParserStateView { mode: ParseMode::ExpectName, acc: Seq::empty(), ..st }
        } else {
            spec_fail(st, DiagKind::UnexpectedToken, st.tok_line, st.tok_col)
        }
    } else {
        let st1 = if camel_ok(st.acc) {
            st
        } else {
            ParserStateView {
                warnings: st.warnings.push(
                    RawDiagnostic {
                        kind: DiagKind::MessageNameStyle,
                        line: st.tok_line,
                        col: st.tok_col,
                    },
                ),
                ..st
            }
        };
        ParserStateView {
            mode: ParseMode::ExpectBrace,
            msgs: st1.msgs.push(st1.acc),
            acc: Seq::empty(),
            ..st1
        }
    }
}

/// Consumes one byte in the current mode, without moving the position.
pub open spec fn spec_consume(st: ParserStateView, b: u8) -> ParserStateView {
    match st.mode {
        ParseMode::Top => {
            if is_space(b) {
                st
            } else if is_ident_start(b) {
                ParserStateView {
                    mode: ParseMode::Word,
                    acc: seq![b],
                    tok_line: st.line,
                    tok_col: st.col,
                    ..st
                }
            } else {
                spec_fail(st, DiagKind::UnexpectedChar, st.line, st.col)
            }
        },
        ParseMode::Word => ParserStateView { acc: st.acc.push(b), ..st },
        ParseMode::ExpectEquals => {
            if is_space(b) {
                st
            } else if b == 61 {
                ParserStateView { mode: ParseMode::ExpectSyntaxString, ..st }
            } else {
                spec_fail(st, DiagKind::ExpectedEquals, st.line, st.col)
            }
        },
        ParseMode::ExpectSyntaxString => {
            if is_space(b) {
                st
            } else if b == 34 {
                ParserStateView { mode: ParseMode::SyntaxString, acc: Seq::empty(), ..st }
            } else {
                spec_fail(st, DiagKind::ExpectedString, st.line, st.col)
            }
        },
        ParseMode::ExpectImportString => {
            if is_space(b) {
                st
            } else if b == 34 {
                ParserStateView { mode: ParseMode::ImportString, acc: Seq::empty(), ..st }
            } else {
                spec_fail(st, DiagKind::ExpectedString, st.line, st.col)
            }
        },
        ParseMode::SyntaxString => {
            if b == 34 {
                ParserStateView { mode: ParseMode::ExpectSemicolon, ..st }
            } else if b == 10 {
                spec_fail(st, DiagKind::UnterminatedString, st.line, st.col)
            } else {
                st
            }
        },
        ParseMode::ImportString => {
            if b == 34 {
                ParserStateView {
                    mode: ParseMode::ExpectSemicolon,
                    deps: st.deps.push(st.acc),
                    acc: Seq::empty(),
                    ..st
                }
            } else if b == 10 {
                spec_fail(st, DiagKind::UnterminatedString, st.line, st.col)
            } else {
                ParserStateView { acc: st.acc.push(b), ..st }
            }
        },
        ParseMode::ExpectSemicolon => {
            if is_space(b) {
                st
            } else if b == 59 {
                ParserStateView { mode: ParseMode::Top, ..st }
            } else {
                spec_fail(st, DiagKind::ExpectedSemicolon, st.line, st.col)
            }
        },
        ParseMode::ExpectName => {
            if is_space(b) {
                st
            } else if is_ident_start(b) {
                ParserStateView {
                    mode: ParseMode::Name,
                    acc: seq![b],
                    tok_line: st.line,
                    tok_col: st.col,
                    ..st
                }
            } else {
                spec_fail(st, DiagKind::ExpectedName, st.line, st.col)
            }
        },
        ParseMode::Name => ParserStateView { acc: st.acc.push(b), ..st },
        ParseMode::ExpectBrace => {
            if is_space(b) {
                st
            } else if b == 123 {
                ParserStateView { mode: ParseMode::Body, depth: 1, ..st }
            } else {
                spec_fail(st, DiagKind::ExpectedBrace, st.line, st.col)
            }
        },
        ParseMode::Body => {
            if b == 123 {
                ParserStateView { depth: (st.depth + 1) as usize, ..st }
            } else if b == 125 {
                if st.depth <= 1 {
                    ParserStateView { mode: ParseMode::Top, depth: 0, ..st }
                } else {
                    ParserStateView { depth: (st.depth - 1) as usize, ..st }
                }
            } else {
                st
            }
        },
        ParseMode::Failed => st,
    }
}

/// Moves the position past one byte: a newline starts the next line.
pub open spec fn spec_advance(st: ParserStateView, b: u8) -> ParserStateView {
    if st.mode is Failed {
        st
    } else if b == 10 {
        ParserStateView { line: (st.line + 1) as usize, col: 0, ..st }
    } else {
        ParserStateView { col: (st.col + 1) as usize, ..st }
    }
}

/// One step of the parser: an identifier byte ends any token in progress
/// first, then the byte is consumed and the position moves.
pub open spec fn spec_step(st: ParserStateView, b: u8) -> ParserStateView {
    if st.mode is Failed {
        st
    } else {
        let st1 = if (st.mode is Word || st.mode is Name) && !is_ident_byte(b) {
            spec_end_token(st)
        } else {
            st
        };
        if st1.mode is Failed {
            st1
        } else {
            spec_advance(spec_consume(st1, b), b)
        }
    }
}

/// Runs the parser over `s` from position `i` on.
pub open spec fn spec_run(s: Seq<u8>, i: int, st: ParserStateView) -> ParserStateView
    decreases s.len() - i,
{
    if i < 0 || i >= s.len() {
        st
    } else {
        spec_run(s, i + 1, spec_step(st, s[i]))
    }
}

/// Ends the parse at end of input: a token in progress is finished, and any
/// mode short of a complete declaration becomes a fatal diagnostic.
pub open spec fn spec_finish(st: ParserStateView) -> ParseOutcome {
    let st1 = if !(st.mode is Failed) && (st.mode is Word || st.mode is Name) {
        spec_end_token(st)
    } else {
        st
    };
    match st1.mode {
        ParseMode::Failed => ParseOutcome {
            file: None,
            diags: st1.warnings.push(st1.error->Some_0),
        },
        ParseMode::Top => ParseOutcome {
            file: Some(FileParseView { deps: st1.deps, msgs: st1.msgs }),
            diags: st1.warnings,
        },
        ParseMode::Body => ParseOutcome {
            file: None,
            diags: st1.warnings.push(
                RawDiagnostic { kind: DiagKind::UnterminatedMessage, line: st1.line, col: st1.col },
            ),
        },
        ParseMode::SyntaxString => ParseOutcome {
            file: None,
            diags: st1.warnings.push(
                RawDiagnostic { kind: DiagKind::UnterminatedString, line: st1.line, col: st1.col },
            ),
        },
        ParseMode::ImportString => ParseOutcome {
            file: None,
            diags: st1.warnings.push(
                RawDiagnostic { kind: DiagKind::UnterminatedString, line: st1.line, col: st1.col },
            ),
        },
        _ => ParseOutcome {
            file: None,
            diags: st1.warnings.push(
                RawDiagnostic { kind: DiagKind::UnexpectedEnd, line: st1.line, col: st1.col },
            ),
        },
    }
}

/// What parsing the whole of `s` yields.
pub open spec fn spec_parse(s: Seq<u8>) -> ParseOutcome {
    spec_finish(spec_run(s, 0, init_state()))
}

/// Every position and the brace depth stay within `n`.
pub open spec fn state_bounded(st: ParserStateView, n: int) -> bool {
    &&& st.line <= n
    &&& st.col <= n
    &&& st.tok_line <= n
    &&& st.tok_col <= n
    &&& st.depth <= n
}

/// A failed state always carries its fatal diagnostic.
pub open spec fn state_wf(st: ParserStateView) -> bool {
    st.mode is Failed ==> st.error is Some
}

/// One step preserves well-formedness.
pub proof fn lemma_step_wf(st: ParserStateView, b: u8)
    requires
        state_wf(st),
    ensures
        state_wf(spec_step(st, b)),
{
}

/// One step keeps the state bounded by one more than before.
pub proof fn lemma_step_bounded(st: ParserStateView, b: u8, n: int)
    requires
        state_bounded(st, n),
        0 <= n,
        n + 1 <= usize::MAX,
    ensures
        state_bounded(spec_step(st, b), n + 1),
{
}

} // verus!

use vstd::prelude::*;

verus! {

/// The executable parser state; its view is a [`ParserStateView`].
pub struct ParserState {
    mode: ParseMode,
    line: usize,
    col: usize,
    tok_line: usize,
    tok_col: usize,
    acc: Vec<u8>,
    depth: usize,
    deps: Vec<Vec<u8>>,
    msgs: Vec<Vec<u8>>,
    warnings: Vec<RawDiagnostic>,
    error: Option<RawDiagnostic>,
}

/// The views of a list of byte vectors.
pub open spec fn bytes_list_view(v: Seq<Vec<u8>>) -> Seq<Seq<u8>> {
    Seq::new(v.len(), |i: int| v[i]@)
}

impl View for ParserState {
    type V = ParserStateView;

    closed spec fn view(&self) -> ParserStateView {
        ParserStateView {
            mode: self.mode,
            line: self.line,
            col: self.col,
            tok_line: self.tok_line,
            tok_col: self.tok_col,
            acc: self.acc@,
            depth: self.depth,
            deps: bytes_list_view(self.deps@),
            msgs: bytes_list_view(self.msgs@),
            warnings: self.warnings@,
            error: self.error,
        }
    }
}

impl ParserState {
    /// Creates the state a parse starts from.
    pub fn new() -> (r: ParserState)
        ensures
            r@ == init_state(),
    {
        let r = ParserState {
            mode: ParseMode::Top,
            line: 0,
            col: 0,
            tok_line: 0,
            tok_col: 0,
            acc: Vec::new(),
            depth: 0,
            deps: Vec::new(),
            msgs: Vec::new(),
            warnings: Vec::new(),
            error: None,
        };
        proof {
            assert(bytes_list_view(r.deps@) =~= Seq::<Seq<u8>>::empty());
            assert(bytes_list_view(r.msgs@) =~= Seq::<Seq<u8>>::empty());
            assert(r@ =~= init_state());
        }
        r
    }

    /// Records the fatal diagnostic and freezes the machine.
    fn fail(&mut self, kind: DiagKind, line: usize, col: usize)
        ensures
            final(self)@ == spec_fail(old(self)@, kind, line, col),
    {
        self.mode = ParseMode::Failed;
        self.error = Some(RawDiagnostic { kind, line, col });
    }

    /// Finishes the token in the accumulator, as [`spec_end_token`] says.
    fn end_token(&mut self)
        requires
            old(self)@.mode is Word || old(self)@.mode is Name,
        ensures
            final(self)@ == spec_end_token(old(self)@),
    {
        let is_word = match self.mode {
            ParseMode::Word => true,
            _ => false,
        };
        if is_word {
            if eq_bytes(&self.acc, &[115u8, 121u8, 110u8, 116u8, 97u8, 120u8]) {
                proof {
                    assert(self@.acc == kw_syntax());
                }
                self.mode = ParseMode::ExpectEquals;
                self.acc = Vec::new();
            } else if eq_bytes(&self.acc, &[105u8, 109u8, 112u8, 111u8, 114u8, 116u8]) {
                proof {
                    assert(self@.acc == kw_import());
                }
                self.mode = ParseMode::ExpectImportString;
                self.acc = Vec::new();
            } else if eq_bytes(&self.acc, &[109u8, 101u8, 115u8, 115u8, 97u8, 103u8, 101u8]) {
                proof {
                    assert(self@.acc == kw_message());
                }
                self.mode = ParseMode::ExpectName;
                self.acc = Vec::new();
            } else {
                let l = self.tok_line;
                let c = self.tok_col;
                self.fail(DiagKind::UnexpectedToken, l, c);
            }
        } else {
            if !camel_case_ok(&self.acc) {
                self.warnings.push(
                    RawDiagnostic {
                        kind: DiagKind::MessageNameStyle,
                        line: self.tok_line,
                        col: self.tok_col,
                    },
                );
            }
            let mut name: Vec<u8> = Vec::new();
            core::mem::swap(&mut name, &mut self.acc);
            self.msgs.push(name);
            self.mode = ParseMode::ExpectBrace;
            proof {
                assert(self@.msgs =~= spec_end_token(old(self)@).msgs);
                assert(self@ =~= spec_end_token(old(self)@));
            }
        }
    }

    /// Feeds one byte to the machine, as [`spec_step`] says.
    pub fn step(&mut self, b: u8)
        requires
            old(self)@.line < usize::MAX,
            old(self)@.col < usize::MAX,
            old(self)@.depth < usize::MAX,
        ensures
            final(self)@ == spec_step(old(self)@, b),
    {
        let failed = match self.mode {
            ParseMode::Failed => true,
            _ => false,
        };
        if failed {
            return ;
        }
        let in_token = match self.mode {
            ParseMode::Word => true,
            ParseMode::Name => true,
            _ => false,
        };
        if in_token && !is_ident_byte_exec(b) {
            self.end_token();
            let failed_now = match self.mode {
                ParseMode::Failed => true,
                _ => false,
            };
            if failed_now {
                return ;
            }
        }
        self.consume(b);
        let failed_after = match self.mode {
            ParseMode::Failed => true,
            _ => false,
        };
        if !failed_after {
            if b == 10 {
                self.line = self.line + 1;
                self.col = 0;
            } else {
                self.col = self.col + 1;
            }
        }
    }

    /// Consumes one byte in the current mode, as [`spec_consume`] says.
    fn consume(&mut self, b: u8)
        requires
            !(old(self)@.mode is Failed),
            old(self)@.depth < usize::MAX,
        ensures
            final(self)@ == spec_consume(old(self)@, b),
    {
        let line = self.line;
        let col = self.col;
        match self.mode {
            ParseMode::Top => {
                if is_space_exec(b) {
                } else if is_ident_start_exec(b) {
                    self.mode = ParseMode::Word;
                    let mut acc: Vec<u8> = Vec::new();
                    acc.push(b);
                    self.acc = acc;
                    self.tok_line = line;
                    self.tok_col = col;
                    proof {
                        assert(self@.acc =~= seq![b]);
                    }
                } else {
                    self.fail(DiagKind::UnexpectedChar, line, col);
                }
            },
            ParseMode::Word => {
                self.acc.push(b);
            },
            ParseMode::ExpectEquals => {
                if is_space_exec(b) {
                } else if b == 61 {
                    self.mode = ParseMode::ExpectSyntaxString;
                } else {
                    self.fail(DiagKind::ExpectedEquals, line, col);
                }
            },
            ParseMode::ExpectSyntaxString => {
                if is_space_exec(b) {
                } else if b == 34 {
                    self.mode = ParseMode::SyntaxString;
                    self.acc = Vec::new();
                } else {
                    self.fail(DiagKind::ExpectedString, line, col);
                }
            },
            ParseMode::ExpectImportString => {
                if is_space_exec(b) {
                } else if b == 34 {
                    self.mode = ParseMode::ImportString;
                    self.acc = Vec::new();
                } else {
                    self.fail(DiagKind::ExpectedString, line, col);
                }
            },
            ParseMode::SyntaxString => {
                if b == 34 {
                    self.mode = ParseMode::ExpectSemicolon;
                } else if b == 10 {
                    self.fail(DiagKind::UnterminatedString, line, col);
                }
            },
            ParseMode::ImportString => {
                if b == 34 {
                    self.mode = ParseMode::ExpectSemicolon;
                    let mut path: Vec<u8> = Vec::new();
                    core::mem::swap(&mut path, &mut self.acc);
                    self.deps.push(path);
                    proof {
                        assert(self@.deps =~= spec_consume(old(self)@, b).deps);
                        assert(self@ =~= spec_consume(old(self)@, b));
                    }
                } else if b == 10 {
                    self.fail(DiagKind::UnterminatedString, line, col);
                } else {
                    self.acc.push(b);
                }
            },
            ParseMode::ExpectSemicolon => {
                if is_space_exec(b) {
                } else if b == 59 {
                    self.mode = ParseMode::Top;
                } else {
                    self.fail(DiagKind::ExpectedSemicolon, line, col);
                }
            },
            ParseMode::ExpectName => {
                if is_space_exec(b) {
                } else if is_ident_start_exec(b) {
                    self.mode = ParseMode::Name;
                    let mut acc: Vec<u8> = Vec::new();
                    acc.push(b);
                    self.acc = acc;
                    self.tok_line = line;
                    self.tok_col = col;
                    proof {
                        assert(self@.acc =~= seq![b]);
                    }
                } else {
                    self.fail(DiagKind::ExpectedName, line, col);
                }
            },
            ParseMode::Name => {
                self.acc.push(b);
            },
            ParseMode::ExpectBrace => {
                if is_space_exec(b) {
                } else if b == 123 {
                    self.mode = ParseMode::Body;
                    self.depth = 1;
                } else {
                    self.fail(DiagKind::ExpectedBrace, line, col);
                }
            },
            ParseMode::Body => {
                if b == 123 {
                    self.depth = self.depth + 1;
                } else if b == 125 {
                    if self.depth <= 1 {
                        self.mode = ParseMode::Top;
                        self.depth = 0;
                    } else {
                        self.depth = self.depth - 1;
                    }
                }
            },
            ParseMode::Failed => {
            },
        }
    }

    /// Ends the parse at end of input, as [`spec_finish`] says.
    pub fn finish(self) -> (r: (Option<(Vec<Vec<u8>>, Vec<Vec<u8>>)>, Vec<RawDiagnostic>))
        requires
            state_wf(self@),
        ensures
            ({
                let outcome = spec_finish(self@);
                &&& r.1@ == outcome.diags
                &&& match r.0 {
                    Some((deps, msgs)) => outcome.file == Some(
                        FileParseView {
                            deps: bytes_list_view(deps@),
                            msgs: bytes_list_view(msgs@),
                        },
                    ),
                    None => outcome.file is None,
                }
            }),
    {
        let mut st = self;
        let in_token = match st.mode {
            ParseMode::Word => true,
            ParseMode::Name => true,
            _ => false,
        };
        if in_token {
            st.end_token();
        }
        let line = st.line;
        let col = st.col;
        match st.mode {
            ParseMode::Failed => {
                let mut diags = st.warnings;
                let e = match st.error {
                    Some(e) => e,
                    None => RawDiagnostic { kind: DiagKind::UnexpectedEnd, line, col },
                };
                diags.push(e);
                (None, diags)
            },
            ParseMode::Top => (Some((st.deps, st.msgs)), st.warnings),
            ParseMode::Body => {
                let mut diags = st.warnings;
                diags.push(RawDiagnostic { kind: DiagKind::UnterminatedMessage, line, col });
                (None, diags)
            },
            ParseMode::SyntaxString => {
                let mut diags = st.warnings;
                diags.push(RawDiagnostic { kind: DiagKind::UnterminatedString, line, col });
                (None, diags)
            },
            ParseMode::ImportString => {
                let mut diags = st.warnings;
                diags.push(RawDiagnostic { kind: DiagKind::UnterminatedString, line, col });
                (None, diags)
            },
            _ => {
                let mut diags = st.warnings;
                diags.push(RawDiagnostic { kind: DiagKind::UnexpectedEnd, line, col });
                (None, diags)
            },
        }
    }
}

/// Parses a whole file: the imports and message names it declares, or no file
/// when a fatal diagnostic was emitted, along with every diagnostic.
pub fn parse(input: &Vec<u8>) -> (r: (Option<(Vec<Vec<u8>>, Vec<Vec<u8>>)>, Vec<RawDiagnostic>))
    ensures
        ({
            let outcome = spec_parse(input@);
            &&& r.1@ == outcome.diags
            &&& match r.0 {
                Some((deps, msgs)) => outcome.file == Some(
                    FileParseView { deps: bytes_list_view(deps@), msgs: bytes_list_view(msgs@) },
                ),
                None => outcome.file is None,
            }
        }),
{
    let mut st = ParserState::new();
    let mut i: usize = 0;
    while i < input.len()
        invariant
            i <= input@.len(),
            spec_run(input@, i as int, st@) == spec_run(input@, 0, init_state()),
            state_bounded(st@, i as int),
            state_wf(st@),
        decreases input@.len() - i,
    {
        proof {
            assert(input@.len() <= usize::MAX);
            lemma_step_bounded(st@, input@[i as int], i as int);
            lemma_step_wf(st@, input@[i as int]);
        }
        st.step(input[i]);
        i += 1;
    }
    st.finish()
}

/// Whether the byte is whitespace; equal to [`is_space`].
fn is_space_exec(b: u8) -> (r: bool)
    ensures
        r == is_space(b),
{
    b == 32 || b == 9 || b == 13 || b == 10
}

/// Whether the byte may start an identifier; equal to [`is_ident_start`].
fn is_ident_start_exec(b: u8) -> (r: bool)
    ensures
        r == is_ident_start(b),
{
    (65 <= b && b <= 90) || (97 <= b && b <= 122) || b == 95
}

/// Whether the byte may continue an identifier; equal to [`is_ident_byte`].
fn is_ident_byte_exec(b: u8) -> (r: bool)
    ensures
        r == is_ident_byte(b),
{
    is_ident_start_exec(b) || (48 <= b && b <= 57) || b == 46
}

/// Whether the vector's bytes equal the given slice's.
pub fn eq_bytes(a: &Vec<u8>, b: &[u8]) -> (r: bool)
    ensures
        r == (a@ == b@),
{
    if a.len() != b.len() {
        proof {
            assert(a@ != b@);
        }
        return false;
    }
    let n = a.len();
    let mut i: usize = 0;
    while i < n
        invariant
            n == a@.len() == b@.len(),
            i <= n,
            forall|k: int| 0 <= k < i ==> a@[k] == b@[k],
        decreases n - i,
    {
        if a[i] != *vstd::slice::slice_index_get(b, i) {
            proof {
                assert(a@[i as int] != b@[i as int]);
            }
            return false;
        }
        i += 1;
    }
    proof {
        assert(a@ =~= b@);
    }
    true
}

/// Whether the name is UpperCamelCase; equal to [`camel_ok`].
fn camel_case_ok(name: &Vec<u8>) -> (r: bool)
    ensures
        r == camel_ok(name@),
{
    if name.len() == 0 {
        return false;
    }
    if !(65 <= name[0] && name[0] <= 90) {
        return false;
    }
    let n = name.len();
    let mut i: usize = 0;
    while i < n
        invariant
            n == name@.len(),
            i <= n,
            name@.len() > 0,
            65 <= name@[0] <= 90,
            forall|k: int| 0 <= k < i ==> name@[k] != 95,
        decreases n - i,
    {
        if name[i] == 95 {
            return false;
        }
        i += 1;
    }
    true
}

} // verus!
