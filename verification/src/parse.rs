//! The parser: drives line-by-line classification, maintains the current
//! group, and accumulates key/value results and structured errors.
//!
//! The caller either feeds lines one at a time into a [`Parser`] (the shape
//! an incremental reader needs) or hands whole file text to [`parse_str`].
//! The result is a fully built [`Config`] when no error occurred, otherwise
//! the complete ordered list of errors; a partially built map is never
//! surfaced.

use vstd::prelude::*;
use crate::chars::chars_of_str;
use crate::chars::find_char;
use crate::chars::lemma_find_char_props;
use crate::chars::string_from_chars;
use crate::chars::trim_chars;
use crate::chars::trim_end_spec;
use crate::chars::trim_spec;
use crate::chars::trim_start_spec;
use crate::config::Config;
use crate::line::classify;
use crate::line::classify_spec;
use crate::line::LineClass;
use crate::line::LineClassView;

verus! {

/// The specification view of one error: either a failed I/O operation or a
/// structured parse error citing the file, the message, the trimmed line
/// text and the 1-based line number.
#[verifier::ext_equal]
pub enum ErrorView {
    Io { file: Seq<char>, kind: Seq<char> },
    Parse { file: Seq<char>, msg: Seq<char>, data: Seq<char>, line: nat },
}

/// Error for file I/O and parse errors.
///
/// `IO` carries the file path and a description of the underlying failure
/// kind. `Parse` carries the source file, the message, the offending
/// (trimmed) line text and the 1-based line number.
#[derive(Debug)]
pub enum FileError {
    IO((String, String)),
    Parse { file: String, msg: String, data: String, line: u32 },
}

impl View for FileError {
    type V = ErrorView;

    open spec fn view(&self) -> ErrorView {
        match self {
            FileError::IO((file, kind)) => ErrorView::Io { file: file@, kind: kind@ },
            FileError::Parse { file, msg, data, line } => ErrorView::Parse {
                file: file@,
                msg: msg@,
                data: data@,
                line: *line as nat,
            },
        }
    }
}

/// The views of a sequence of errors.
pub open spec fn errs_of(v: Seq<FileError>) -> Seq<ErrorView> {
    v.map_values(|e: FileError| e@)
}

/// The message reported for a group header without its closing bracket.
pub open spec fn msg_missing_bracket() -> Seq<char> {
    "Missing closing bracket for group name"@
}

/// The message reported for an assignment without a variable name.
pub open spec fn msg_missing_variable() -> Seq<char> {
    "Assignment requires a variable name"@
}

/// The message reported for a line that matches no classification.
pub open spec fn msg_invalid_line() -> Seq<char> {
    "Expected a variable assignment"@
}

/// The abstract parser state: the group in force, the map built so far, the
/// errors collected so far, and the number of lines delivered so far.
#[verifier::ext_equal]
pub struct ParseState {
    pub group: Seq<char>,
    pub map: Map<(Seq<char>, Seq<char>), Seq<char>>,
    pub errors: Seq<ErrorView>,
    pub line: nat,
}

/// The initial parser state: implicit group `DEFAULT`, nothing read.
pub open spec fn init_spec() -> ParseState {
    ParseState {
        group: "DEFAULT"@,
        map: Map::empty(),
        errors: Seq::empty(),
        line: 0,
    }
}

/// One parser step on a successfully delivered line: the line counter
/// advances, then the classified line updates the state. Blank and comment
/// lines change nothing; a header switches the group in force (re-opening a
/// seen group is legal); an assignment overrides the key in the group in
/// force; each malformed line appends exactly one error, citing the trimmed
/// line and the 1-based line number, and leaves group and map unchanged.
pub open spec fn step_spec(st: ParseState, src: Seq<char>, raw: Seq<char>) -> ParseState {
    let cnt = st.line + 1;
    let data = trim_spec(raw);
    match classify_spec(raw) {
        LineClassView::Blank => ParseState { line: cnt, ..st },
        LineClassView::Comment => ParseState { line: cnt, ..st },
        LineClassView::Group(name) => ParseState { group: name, line: cnt, ..st },
        LineClassView::Assignment(var, val) => ParseState {
            map: st.map.insert((st.group, var), val),
            line: cnt,
            ..st
        },
        LineClassView::BadHeader => ParseState {
            errors: st.errors.push(
                ErrorView::Parse { file: src, msg: msg_missing_bracket(), data, line: cnt },
            ),
            line: cnt,
            ..st
        },
        LineClassView::MissingVariable => ParseState {
            errors: st.errors.push(
                ErrorView::Parse { file: src, msg: msg_missing_variable(), data, line: cnt },
            ),
            line: cnt,
            ..st
        },
        LineClassView::Invalid => ParseState {
            errors: st.errors.push(
                ErrorView::Parse { file: src, msg: msg_invalid_line(), data, line: cnt },
            ),
            line: cnt,
            ..st
        },
    }
}

/// The parser state after all of `lines`, in order, starting from `st`.
pub open spec fn run_spec(st: ParseState, src: Seq<char>, lines: Seq<Seq<char>>) -> ParseState
    decreases lines.len(),
{
    if lines.len() == 0 {
        st
    } else {
        step_spec(run_spec(st, src, lines.drop_last()), src, lines.last())
    }
}

/// The incremental parser. Its abstract value (`@`) is a [`ParseState`];
/// feeding a line takes the state through [`step_spec`].
pub struct Parser {
    source: String,
    group: String,
    cnt: u32,
    config: Config,
    errors: Vec<FileError>,
}

impl Parser {
    /// The source identifier (file path) cited in error reports.
    pub closed spec fn src(&self) -> Seq<char> {
        self.source@
    }
}

impl View for Parser {
    type V = ParseState;

    closed spec fn view(&self) -> ParseState {
        ParseState {
            group: self.group@,
            map: self.config@,
            errors: errs_of(self.errors@),
            line: self.cnt as nat,
        }
    }
}

impl Parser {
    /// A parser in the initial state, reporting errors against `source`.
    pub fn new(source: &str) -> (p: Parser)
        ensures
            p@ == init_spec(),
            p.src() == source@,
    {
        let p = Parser {
            source: source.to_owned(),
            group: "DEFAULT".to_owned(),
            cnt: 0,
            config: Config::default(),
            errors: Vec::new(),
        };
        proof {
            assert(errs_of(p.errors@) =~= Seq::<ErrorView>::empty());
            assert(p@ =~= init_spec());
        }
        p
    }

    /// Feeds one successfully delivered line, as characters.
    pub fn feed_chars(&mut self, raw: &Vec<char>)
        requires
            old(self)@.line < u32::MAX,
        ensures
            final(self)@ == step_spec(old(self)@, old(self).src(), raw@),
            final(self).src() == old(self).src(),
    {
        self.cnt = self.cnt + 1;
        let t = trim_chars(raw);
        match classify(raw) {
            LineClass::Blank => {},
            LineClass::Comment => {},
            LineClass::Group(name) => {
                self.group = name;
            },
            LineClass::Assignment(var, val) => {
                let g = self.group.clone();
                self.config.insert_entry(g, var, val);
            },
            LineClass::BadHeader => {
                let ghost before = self.errors@;
                self.errors.push(FileError::Parse {
                    file: self.source.clone(),
                    msg: "Missing closing bracket for group name".to_owned(),
                    data: string_from_chars(&t),
                    line: self.cnt,
                });
                proof {
                    assert(errs_of(self.errors@) =~= errs_of(before).push(
                        self.errors@.last()@,
                    ));
                }
            },
            LineClass::MissingVariable => {
                let ghost before = self.errors@;
                self.errors.push(FileError::Parse {
                    file: self.source.clone(),
                    msg: "Assignment requires a variable name".to_owned(),
                    data: string_from_chars(&t),
                    line: self.cnt,
                });
                proof {
                    assert(errs_of(self.errors@) =~= errs_of(before).push(
                        self.errors@.last()@,
                    ));
                }
            },
            LineClass::Invalid => {
                let ghost before = self.errors@;
                self.errors.push(FileError::Parse {
                    file: self.source.clone(),
                    msg: "Expected a variable assignment".to_owned(),
                    data: string_from_chars(&t),
                    line: self.cnt,
                });
                proof {
                    assert(errs_of(self.errors@) =~= errs_of(before).push(
                        self.errors@.last()@,
                    ));
                }
            },
        }
        proof {
            assert(self@ =~= step_spec(old(self)@, old(self).src(), raw@));
        }
    }

    /// Feeds one successfully delivered line of text.
    pub fn feed_line(&mut self, line: &str)
        requires
            old(self)@.line < u32::MAX,
        ensures
            final(self)@ == step_spec(old(self)@, old(self).src(), line@),
            final(self).src() == old(self).src(),
    {
        let cs = chars_of_str(line);
        self.feed_chars(&cs);
    }

    /// Records a failed read of one line: exactly one I/O error is
    /// appended, citing the source and the failure kind; the group, the map
    /// and the line counter do not change.
    pub fn note_read_error(&mut self, kind: &str)
        ensures
            final(self)@ == (ParseState {
                errors: old(self)@.errors.push(
                    ErrorView::Io { file: old(self).src(), kind: kind@ },
                ),
                ..old(self)@
            }),
            final(self).src() == old(self).src(),
    {
        let ghost before = self.errors@;
        self.errors.push(FileError::IO((self.source.clone(), kind.to_owned())));
        proof {
            assert(errs_of(self.errors@) =~= errs_of(before).push(self.errors@.last()@));
            assert(self@ =~= ParseState {
                errors: old(self)@.errors.push(
                    ErrorView::Io { file: old(self).src(), kind: kind@ },
                ),
                ..old(self)@
            });
        }
    }

    /// The number of lines delivered so far.
    pub fn lines_delivered(&self) -> (r: u32)
        ensures
            r as nat == self@.line,
    {
        self.cnt
    }

    /// Ends the parse: the configuration if no error was recorded,
    /// otherwise the complete ordered error list.
    pub fn finish(self) -> (r: Result<Config, Vec<FileError>>)
        ensures
            r matches Ok(_) <==> self@.errors.len() == 0,
            r matches Ok(c) ==> c@ == self@.map,
            r matches Err(es) ==> errs_of(es@) == self@.errors && es@.len() > 0,
    {
        if self.errors.len() == 0 {
            Ok(self.config)
        } else {
            Err(self.errors)
        }
    }
}

/// The lines of a text: the segments between newline characters; the text
/// after the last newline is a final line only if it is nonempty.
pub open spec fn lines_spec(s: Seq<char>) -> Seq<Seq<char>>
    decreases s.len(),
    via lines_spec_decreases
{
    if s.len() == 0 {
        Seq::empty()
    } else if find_char(s, '\n') == s.len() {
        seq![s]
    } else {
        seq![s.take(find_char(s, '\n'))] + lines_spec(s.skip(find_char(s, '\n') + 1))
    }
}

#[via_fn]
proof fn lines_spec_decreases(s: Seq<char>) {
    lemma_find_char_props(s, '\n');
}

/// A text has no more lines than characters.
pub proof fn lemma_lines_spec_len(s: Seq<char>)
    ensures
        lines_spec(s).len() <= s.len(),
    decreases s.len(),
{
    lemma_find_char_props(s, '\n');
    if s.len() > 0 && find_char(s, '\n') < s.len() {
        lemma_lines_spec_len(s.skip(find_char(s, '\n') + 1));
    }
}

/// Splits a text into its lines; agrees with [`lines_spec`].
pub fn split_lines(text: &Vec<char>) -> (r: Vec<Vec<char>>)
    ensures
        r.deep_view() == lines_spec(text@),
{
    let mut lines: Vec<Vec<char>> = Vec::new();
    let mut cur: Vec<char> = Vec::new();
    let mut i: usize = 0;
    let n = text.len();
    proof {
        assert(lines.deep_view() =~~= Seq::<Seq<char>>::empty());
        assert(text@.skip(0) =~= text@);
        assert(lines.deep_view() + lines_spec(text@) =~~= lines_spec(text@));
    }
    while i < n
        invariant
            n == text@.len(),
            i <= n,
            cur@.len() <= i,
            cur@ == text@.subrange(i - cur@.len(), i as int),
            forall|t: int| 0 <= t < cur@.len() ==> cur@[t] != '\n',
            lines_spec(text@) == lines.deep_view() + lines_spec(
                text@.skip(i - cur@.len()),
            ),
        decreases n - i,
    {
        let c = text[i];
        if c == '\n' {
            proof {
                let rest = text@.skip(i - cur@.len());
                lemma_find_char_props(rest, '\n');
                assert(forall|t: int| 0 <= t < cur@.len() ==> rest[t] == cur@[t]);
                assert(rest[cur@.len() as int] == '\n');
                let fc = find_char(rest, '\n');
                assert(fc == cur@.len()) by {
                    if fc < cur@.len() {
                        assert(rest[fc] != '\n');
                    }
                    if fc > cur@.len() {
                        assert(rest[cur@.len() as int] != '\n');
                    }
                }
                assert(rest.take(fc) =~= cur@);
                assert(rest.skip(fc + 1) =~= text@.skip(i + 1));
                assert(lines_spec(rest) == seq![cur@] + lines_spec(text@.skip(i + 1)));
                assert(lines.deep_view() + lines_spec(rest) =~~= (lines.deep_view().push(cur@))
                    + lines_spec(text@.skip(i + 1)));
            }
            let ghost before = lines.deep_view();
            let ghost curv = cur@;
            lines.push(cur);
            cur = Vec::new();
            proof {
                assert(lines.deep_view() =~~= before.push(curv));
                assert(cur@ =~= text@.subrange(i + 1 - cur@.len(), i as int + 1));
            }
        } else {
            let ghost beforec = cur@;
            cur.push(c);
            proof {
                assert(cur@ =~= text@.subrange(i + 1 - cur@.len(), i as int + 1));
            }
        }
        i += 1;
    }
    proof {
        let rest = text@.skip(n - cur@.len());
        assert(rest =~= cur@);
    }
    if cur.len() > 0 {
        proof {
            let rest = text@.skip(n - cur@.len());
            lemma_find_char_props(rest, '\n');
            let fc = find_char(rest, '\n');
            assert(fc == rest.len()) by {
                if fc < rest.len() {
                    assert(rest[fc] != '\n');
                }
            }
            assert(lines_spec(rest) == seq![rest]);
        }
        let ghost before = lines.deep_view();
        let ghost curv = cur@;
        lines.push(cur);
        proof {
            assert(lines.deep_view() =~~= before.push(curv));
            assert(before.push(curv) =~~= before + seq![curv]);
        }
    } else {
        proof {
            assert(lines_spec(cur@) == Seq::<Seq<char>>::empty());
            assert(lines.deep_view() + lines_spec(cur@) =~~= lines.deep_view());
        }
    }
    lines
}

/// Parses whole INI file text, reporting errors against `source`.
///
/// Returns the configuration when no error occurred; otherwise the
/// complete ordered list of errors (the partially built map is discarded).
pub fn parse_str(text: &str, source: &str) -> (r: Result<Config, Vec<FileError>>)
    requires
        text@.len() <= u32::MAX,
    ensures
        ({
            let st = run_spec(init_spec(), source@, lines_spec(text@));
            &&& (r matches Ok(_) <==> st.errors.len() == 0)
            &&& (r matches Ok(c) ==> c@ == st.map)
            &&& (r matches Err(es) ==> errs_of(es@) == st.errors && es@.len() > 0)
        }),
{
    let cs = chars_of_str(text);
    let lines = split_lines(&cs);
    proof {
        lemma_lines_spec_len(text@);
    }
    let mut p = Parser::new(source);
    let mut i: usize = 0;
    let n = lines.len();
    while i < n
        invariant
            n == lines@.len(),
            i <= n,
            lines.deep_view() == lines_spec(text@),
            lines_spec(text@).len() <= u32::MAX,
            p@ == run_spec(init_spec(), source@, lines.deep_view().take(i as int)),
            p@.line <= i,
            p.src() == source@,
        decreases n - i,
    {
        proof {
            assert(lines.deep_view()[i as int] == lines@[i as int]@);
        }
        p.feed_chars(&lines[i]);
        proof {
            let lv = lines.deep_view();
            assert(lv.take(i as int + 1).drop_last() =~= lv.take(i as int));
            assert(lv.take(i as int + 1).last() == lv[i as int]);
            assert(run_spec(init_spec(), source@, lv.take(i as int + 1)) == step_spec(
                run_spec(init_spec(), source@, lv.take(i as int)),
                source@,
                lv[i as int],
            ));
        }
        i += 1;
    }
    proof {
        assert(lines.deep_view().take(n as int) =~= lines.deep_view());
    }
    p.finish()
}

/// The result of a failed file open: exactly one I/O error, carrying the
/// path and the failure kind, and no parse errors; parsing is not
/// attempted.
pub fn open_error_result(path: &str, kind: &str) -> (r: Result<Config, Vec<FileError>>)
    ensures
        r matches Err(es) && es@.len() == 1 && es@[0]@ == (ErrorView::Io {
            file: path@,
            kind: kind@,
        }),
{
    let mut es: Vec<FileError> = Vec::new();
    es.push(FileError::IO((path.to_owned(), kind.to_owned())));
    Err(es)
}


/// The group in force when line `i` is delivered.
pub open spec fn group_at(src: Seq<char>, lines: Seq<Seq<char>>, i: int) -> Seq<char> {
    run_spec(init_spec(), src, lines.take(i)).group
}

/// Whether line `i` assigns to key `k`, under the group in force at it.
pub open spec fn assigns_at(
    src: Seq<char>,
    lines: Seq<Seq<char>>,
    i: int,
    k: (Seq<char>, Seq<char>),
) -> bool {
    match classify_spec(lines[i]) {
        LineClassView::Assignment(var, val) => k == (group_at(src, lines, i), var),
        _ => false,
    }
}

/// The value assigned by line `i`, if it is an assignment line.
pub open spec fn value_at(lines: Seq<Seq<char>>, i: int) -> Seq<char> {
    match classify_spec(lines[i]) {
        LineClassView::Assignment(var, val) => val,
        _ => Seq::empty(),
    }
}

/// Witness shape for [`lemma_last_write_wins`]: line `i` assigns `k` its
/// retained value, and no later line assigns to `k`.
pub open spec fn last_assign_at(
    src: Seq<char>,
    lines: Seq<Seq<char>>,
    i: int,
    k: (Seq<char>, Seq<char>),
) -> bool {
    &&& 0 <= i < lines.len()
    &&& assigns_at(src, lines, i, k)
    &&& run_spec(init_spec(), src, lines).map[k] == value_at(lines, i)
    &&& (forall|j: int| i < j < lines.len() ==> !assigns_at(src, lines, j, k))
}

/// Last write wins: after a parse, a key is present exactly when some line
/// assigned to it under the group in force at that line, and the value
/// retained is the last such line's.
pub proof fn lemma_last_write_wins(
    src: Seq<char>,
    lines: Seq<Seq<char>>,
    k: (Seq<char>, Seq<char>),
)
    ensures
        run_spec(init_spec(), src, lines).map.contains_key(k) <==> (exists|i: int|
            0 <= i < lines.len() && assigns_at(src, lines, i, k)),
        run_spec(init_spec(), src, lines).map.contains_key(k) ==> (exists|i: int|
            last_assign_at(src, lines, i, k)),
    decreases lines.len(),
{
    if lines.len() > 0 {
        let d = lines.drop_last();
        let last = lines.last();
        let m = d.len() as int;
        lemma_last_write_wins(src, d, k);
        let st_d = run_spec(init_spec(), src, d);
        let st = run_spec(init_spec(), src, lines);
        assert(st == step_spec(st_d, src, last));
        assert forall|i: int| 0 <= i < m implies assigns_at(src, lines, i, k) == assigns_at(
            src,
            d,
            i,
            k,
        ) && value_at(lines, i) == value_at(d, i) by {
            assert(lines.take(i) =~= d.take(i));
            assert(lines[i] == d[i]);
        }
        assert(lines.take(m) =~= d);
        assert(group_at(src, lines, m) == st_d.group);
        assert(lines[m] == last);
        if assigns_at(src, lines, m, k) {
            match classify_spec(last) {
                LineClassView::Assignment(var, val) => {
                    assert(k == (st_d.group, var));
                    assert(st.map == st_d.map.insert((st_d.group, var), val));
                    assert(st.map.contains_key(k));
                    assert(st.map[k] == val);
                    assert(value_at(lines, m) == val);
                    assert(last_assign_at(src, lines, m, k));
                },
                _ => {
                    assert(false);
                },
            }
        } else {
            match classify_spec(last) {
                LineClassView::Assignment(var, val) => {
                    let lk = (st_d.group, var);
                    assert(k != lk);
                    assert(st.map == st_d.map.insert(lk, val));
                    assert(st.map.contains_key(k) == st_d.map.contains_key(k));
                    if st_d.map.contains_key(k) {
                        assert(st.map[k] == st_d.map[k]);
                    }
                },
                _ => {
                    assert(st.map == st_d.map);
                },
            }
            if st_d.map.contains_key(k) {
                let i = choose|i: int| last_assign_at(src, d, i, k);
                assert(last_assign_at(src, d, i, k));
                assert(assigns_at(src, lines, i, k));
                assert(value_at(lines, i) == value_at(d, i));
                assert forall|j: int| i < j < m implies !assigns_at(src, lines, j, k) by {
                    assert(lines.take(j) =~= d.take(j));
                    assert(lines[j] == d[j]);
                    assert(!assigns_at(src, d, j, k));
                }
                assert(!assigns_at(src, lines, m, k));
                assert(last_assign_at(src, lines, i, k));
                assert(0 <= i < lines.len() && assigns_at(src, lines, i, k));
            }
            if exists|i: int| 0 <= i < lines.len() && assigns_at(src, lines, i, k) {
                let i = choose|i: int| 0 <= i < lines.len() && assigns_at(src, lines, i, k);
                assert(i != m);
                assert(assigns_at(src, d, i, k)) by {
                    assert(lines.take(i) =~= d.take(i));
                    assert(lines[i] == d[i]);
                }
                assert(st_d.map.contains_key(k));
            }
        }
    }
}

/// Values may contain '='. Parsing the single trimmed line
/// `key ++ "=" ++ val`, where the key part has no '=', succeeds and binds
/// the right-trimmed key, under the implicit DEFAULT group, to exactly the
/// left-trimmed `val`, every '=' inside it preserved.
pub proof fn lemma_parse_keeps_eq_in_value(src: Seq<char>, key: Seq<char>, val: Seq<char>)
    requires
        forall|i: int| 0 <= i < key.len() ==> key[i] != '=',
        trim_end_spec(key).len() > 0,
        key[0] != ';',
        key[0] != '[',
        trim_spec(key + seq!['='] + val) == key + seq!['='] + val,
    ensures
        ({
            let st = run_spec(init_spec(), src, seq![key + seq!['='] + val]);
            &&& st.errors.len() == 0
            &&& st.map == Map::empty().insert(
                ("DEFAULT"@, trim_end_spec(key)),
                trim_start_spec(val),
            )
        }),
{
    crate::line::lemma_assignment_splits_at_first_eq(key, val);
    let l = key + seq!['='] + val;
    let lines = seq![l];
    assert(lines.drop_last() =~= Seq::<Seq<char>>::empty());
    assert(lines.last() == l);
    assert(run_spec(init_spec(), src, lines.drop_last()) == init_spec());
    assert(run_spec(init_spec(), src, lines) == step_spec(init_spec(), src, l));
}


/// Whether a line is quiet: blank or a comment, changing nothing but the
/// line counter.
pub open spec fn quiet_line(raw: Seq<char>) -> bool {
    classify_spec(raw) == LineClassView::Blank || classify_spec(raw) == LineClassView::Comment
}

/// The message reported for a malformed line of the given class.
pub open spec fn msg_for(c: LineClassView) -> Seq<char> {
    match c {
        LineClassView::BadHeader => msg_missing_bracket(),
        LineClassView::MissingVariable => msg_missing_variable(),
        _ => msg_invalid_line(),
    }
}

/// Quiet lines leave no trace but the line count.
pub proof fn lemma_quiet_prefix(src: Seq<char>, lines: Seq<Seq<char>>)
    requires
        forall|i: int| 0 <= i < lines.len() ==> quiet_line(lines[i]),
    ensures
        run_spec(init_spec(), src, lines).errors == Seq::<ErrorView>::empty(),
        run_spec(init_spec(), src, lines).line == lines.len(),
        run_spec(init_spec(), src, lines).map == Map::<(Seq<char>, Seq<char>), Seq<char>>::empty(),
    decreases lines.len(),
{
    if lines.len() > 0 {
        let d = lines.drop_last();
        assert(forall|i: int| 0 <= i < d.len() ==> quiet_line(d[i]));
        lemma_quiet_prefix(src, d);
        assert(quiet_line(lines[lines.len() - 1]));
    }
}

/// One malformed line among blank and comment lines produces exactly one
/// error: the message of its class, the trimmed line text, and the correct
/// 1-based line number, counting the blank and comment lines before it.
pub proof fn lemma_single_error_line(src: Seq<char>, lines: Seq<Seq<char>>, b: int)
    requires
        0 <= b < lines.len(),
        forall|i: int| 0 <= i < lines.len() && i != b ==> quiet_line(lines[i]),
        classify_spec(lines[b]) == LineClassView::BadHeader || classify_spec(lines[b])
            == LineClassView::MissingVariable || classify_spec(lines[b])
            == LineClassView::Invalid,
    ensures
        run_spec(init_spec(), src, lines).errors == seq![
            ErrorView::Parse {
                file: src,
                msg: msg_for(classify_spec(lines[b])),
                data: trim_spec(lines[b]),
                line: (b + 1) as nat,
            },
        ],
        run_spec(init_spec(), src, lines).line == lines.len(),
    decreases lines.len(),
{
    let d = lines.drop_last();
    let last = lines.last();
    let st_d = run_spec(init_spec(), src, d);
    if b == lines.len() - 1 {
        assert(forall|i: int| 0 <= i < d.len() ==> quiet_line(d[i]));
        lemma_quiet_prefix(src, d);
        assert(st_d.errors =~= Seq::<ErrorView>::empty());
        assert(run_spec(init_spec(), src, lines).errors =~= seq![
            ErrorView::Parse {
                file: src,
                msg: msg_for(classify_spec(last)),
                data: trim_spec(last),
                line: (b + 1) as nat,
            },
        ]);
    } else {
        assert(forall|i: int| 0 <= i < d.len() && i != b ==> quiet_line(d[i]));
        lemma_single_error_line(src, d, b);
        assert(quiet_line(last));
    }
}

} // verus!
