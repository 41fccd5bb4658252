//! The statement scanner: finds the action tags of a line, reads each
//! one's first words, and attaches the variables that a `range` declares.

use crate::model::{Location, Value, Var};
use crate::pattern::{
    captures_of, compile, compiles, find_captures, groups_of, Engine, Groups, Span,
};
use crate::text::{
    chars_of, column_at, column_of_offset, lemma_word_end, lemma_word_start, skip_spaces,
    skip_word, strings_view, word_at, word_end, word_start,
};
use vstd::prelude::*;
use vstd::string::StrSliceExecFns;

verus! {

/// An action tag `{{ ... }}`, with or without trim markers. Group 1 is the
/// text between the delimiters.
pub const STATEMENT_PATTERN: &'static str = r"\{\{-?\s*([^\}]+)\s*-?\}\}";

/// The two-variable form `range $k, $v :=`. Groups 1 and 2 are the names.
pub const RANGE_PATTERN: &'static str = r"range\s+(\$[\w]+),\s*(\$[\w]+)\s*:=";

/// The header `{{ define "name" }}` of a named template. Group 1 is what
/// follows `define`.
pub const HELPERS_PATTERN: &'static str = r"\{\{-?\s*define\s+([^\}]+)\s*-?\}\}";

/// What an action tag does to the scope stack.
#[derive(Clone, Copy, Debug, PartialEq, Eq, Structural)]
pub enum TagKind {
    /// `end`: closes the innermost block.
    End,
    /// `if`: opens a block.
    If,
    /// `else`: closes an `if` block and opens its alternative.
    Else,
    /// `else if`: closes an `if` block and opens the next one of the chain.
    ElseIf,
    /// `with`: opens a block.
    With,
    /// `range`: opens a block, and may declare variables in it.
    Range,
    /// Anything else: no effect on scopes.
    Inert,
}

/// A name and the variable it is bound to.
#[derive(Clone, Debug, PartialEq, Eq)]
pub struct Binding {
    pub name: String,
    pub var: Var,
}

/// A scanned action tag.
#[derive(Clone, Debug, PartialEq, Eq)]
pub struct Tag {
    pub kind: TagKind,
    /// The text between the delimiters.
    pub text: String,
    /// Where that text stands.
    pub location: Location,
    /// The variables that the tag declares; empty unless it is a `range`.
    pub bindings: Vec<Binding>,
}

/// A `Binding` as plain values.
pub struct BindingView {
    pub name: Seq<char>,
    pub var: Var,
}

/// A `Tag` as plain values.
pub struct TagView {
    pub kind: TagKind,
    pub text: Seq<char>,
    pub location: Location,
    pub bindings: Seq<BindingView>,
}

impl View for Binding {
    type V = BindingView;

    open spec fn view(&self) -> BindingView {
        BindingView { name: self.name@, var: self.var }
    }
}

/// The bindings as plain values.
pub open spec fn bindings_view(bindings: Seq<Binding>) -> Seq<BindingView> {
    bindings.map_values(|b: Binding| b@)
}

impl View for Tag {
    type V = TagView;

    open spec fn view(&self) -> TagView {
        TagView {
            kind: self.kind,
            text: self.text@,
            location: self.location,
            bindings: bindings_view(self.bindings@),
        }
    }
}

/// The tags as plain values.
pub open spec fn tags_view(tags: Seq<Tag>) -> Seq<TagView> {
    tags.map_values(|t: Tag| t@)
}

/// The kind of a tag, decided by the first word of its text; after `else`,
/// the second word tells `else if` from a plain `else`.
pub open spec fn kind_of(text: Seq<char>) -> TagKind {
    let first = word_at(text, 0);
    let second = word_at(text, word_end(text, word_start(text, 0)));
    if first == "end"@ {
        TagKind::End
    } else if first == "if"@ {
        TagKind::If
    } else if first == "else"@ {
        if second == "if"@ {
            TagKind::ElseIf
        } else {
            TagKind::Else
        }
    } else if first == "with"@ {
        TagKind::With
    } else if first == "range"@ {
        TagKind::Range
    } else {
        TagKind::Inert
    }
}

/// Compares the characters `[start, end)` of `chars` with `word`.
fn word_equals(chars: &Vec<char>, start: usize, end: usize, word: &str) -> (same: bool)
    requires
        start <= end <= chars@.len(),
    ensures
        same == (chars@.subrange(start as int, end as int) == word@),
{
    let n: usize = word.unicode_len();
    if end - start != n {
        return false;
    }
    let mut i: usize = 0;
    while i < n
        invariant
            i <= n,
            n == word@.len(),
            n == end - start,
            start <= end <= chars@.len(),
            forall|k: int| 0 <= k < i ==> chars@[start + k] == word@[k],
        decreases n - i,
    {
        if chars[start + i] != word.get_char(i) {
            assert(chars@.subrange(start as int, end as int)[i as int] != word@[i as int]);
            return false;
        }
        i += 1;
    }
    assert(chars@.subrange(start as int, end as int) =~= word@);
    true
}

/// Reads the kind of a tag off its text.
pub fn classify(text: &Vec<char>) -> (kind: TagKind)
    ensures
        kind == kind_of(text@),
{
    let a: usize = skip_spaces(text, 0);
    let b: usize = skip_word(text, a);
    proof {
        lemma_word_start(text@, 0);
        lemma_word_end(text@, a as int);
    }
    if word_equals(text, a, b, "end") {
        TagKind::End
    } else if word_equals(text, a, b, "if") {
        TagKind::If
    } else if word_equals(text, a, b, "else") {
        let c: usize = skip_spaces(text, b);
        let d: usize = skip_word(text, c);
        proof {
            lemma_word_start(text@, b as int);
            lemma_word_end(text@, c as int);
        }
        if word_equals(text, c, d, "if") {
            TagKind::ElseIf
        } else {
            TagKind::Else
        }
    } else if word_equals(text, a, b, "with") {
        TagKind::With
    } else if word_equals(text, a, b, "range") {
        TagKind::Range
    } else {
        TagKind::Inert
    }
}

/// The character columns `[start, end)` that a byte span covers; `None`
/// unless both ends fall on character boundaries of the line, in order.
pub open spec fn span_columns(line: Seq<char>, span: Span) -> Option<(int, int)> {
    match (column_at(line, span.0 as int), column_at(line, span.1 as int)) {
        (Some(a), Some(b)) => if a <= b {
            Some((a, b))
        } else {
            None
        },
        _ => None,
    }
}

/// Turns a byte span into character columns.
pub fn columns_of_span(chars: &Vec<char>, span: Span) -> (columns: Option<(usize, usize)>)
    ensures
        match columns {
            Some((a, b)) => span_columns(chars@, span) == Some((a as int, b as int)) && a <= b
                <= chars@.len(),
            None => span_columns(chars@, span) is None,
        },
{
    match column_of_offset(chars, span.0) {
        None => None,
        Some(a) => match column_of_offset(chars, span.1) {
            None => None,
            Some(b) => if a <= b {
                Some((a, b))
            } else {
                None
            },
        },
    }
}

/// The characters `[start, end)` of `chars`.
fn slice_of(chars: &Vec<char>, start: usize, end: usize) -> (part: Vec<char>)
    requires
        start <= end <= chars@.len(),
    ensures
        part@ == chars@.subrange(start as int, end as int),
{
    let mut part: Vec<char> = Vec::new();
    let mut i: usize = start;
    while i < end
        invariant
            start <= i <= end <= chars@.len(),
            part@ == chars@.subrange(start as int, i as int),
        decreases end - i,
    {
        part.push(chars[i]);
        i += 1;
    }
    part
}

/// The place of columns `[start, end)` on line `lineno`.
pub open spec fn place(lineno: usize, start: int, end: int) -> Location {
    Location { line: lineno, start: start as usize, end: end as usize }
}

/// The variable that a capture group declares: its name is the text the
/// group covers, its place the group's own columns. `None` for a group
/// that took no part in the match or whose span is no span of the line.
pub open spec fn binding_of(line: Seq<char>, lineno: usize, group: Option<Span>) -> Option<
    BindingView,
> {
    match group {
        Some(span) => match span_columns(line, span) {
            Some((a, b)) => Some(
                BindingView {
                    name: line.subrange(a, b),
                    var: Var { value: Value::Null, location: place(lineno, a, b) },
                },
            ),
            None => None,
        },
        None => None,
    }
}

/// The variables declared by the groups `1 .. upto` of one match, in the
/// order of the groups.
pub open spec fn bindings_upto(
    line: Seq<char>,
    lineno: usize,
    groups: Seq<Option<Span>>,
    upto: int,
) -> Seq<BindingView>
    decreases upto,
{
    if upto <= 1 {
        Seq::empty()
    } else {
        let before = bindings_upto(line, lineno, groups, upto - 1);
        match binding_of(line, lineno, groups[upto - 1]) {
            Some(b) => before.push(b),
            None => before,
        }
    }
}

/// The variables that a line declares: those of the first match of the
/// two-variable `range` form on it, if there is one.
pub open spec fn range_bindings(
    line: Seq<char>,
    lineno: usize,
    ranges: Seq<Seq<Option<Span>>>,
) -> Seq<BindingView> {
    if ranges.len() == 0 {
        Seq::empty()
    } else {
        bindings_upto(line, lineno, ranges[0], ranges[0].len() as int)
    }
}

/// The tag that one match of the statement pattern stands for: the text
/// of its group 1, classified. `None` when group 1 is absent or its span
/// is no span of the line. Only a `range` tag takes the line's bindings.
pub open spec fn tag_of(
    line: Seq<char>,
    lineno: usize,
    groups: Seq<Option<Span>>,
    bindings: Seq<BindingView>,
) -> Option<TagView> {
    if groups.len() > 1 && groups[1] is Some {
        match span_columns(line, groups[1]->0) {
            Some((a, b)) => {
                let text = line.subrange(a, b);
                Some(
                    TagView {
                        kind: kind_of(text),
                        text,
                        location: place(lineno, a, b),
                        bindings: if kind_of(text) == TagKind::Range {
                            bindings
                        } else {
                            Seq::empty()
                        },
                    },
                )
            },
            None => None,
        }
    } else {
        None
    }
}

/// The tags of the first `upto` matches, from left to right.
pub open spec fn tags_upto(
    line: Seq<char>,
    lineno: usize,
    matches: Seq<Seq<Option<Span>>>,
    bindings: Seq<BindingView>,
    upto: int,
) -> Seq<TagView>
    decreases upto,
{
    if upto <= 0 {
        Seq::empty()
    } else {
        let before = tags_upto(line, lineno, matches, bindings, upto - 1);
        match tag_of(line, lineno, matches[upto - 1], bindings) {
            Some(t) => before.push(t),
            None => before,
        }
    }
}

/// The tags of a line, given what the statement pattern and the `range`
/// pattern found on it.
pub open spec fn line_tags(
    line: Seq<char>,
    lineno: usize,
    statements: Seq<Seq<Option<Span>>>,
    ranges: Seq<Seq<Option<Span>>>,
) -> Seq<TagView> {
    tags_upto(
        line,
        lineno,
        statements,
        range_bindings(line, lineno, ranges),
        statements.len() as int,
    )
}

/// The tags of a line: what the statement pattern finds on it, with the
/// variables that the `range` pattern finds on it.
pub open spec fn scanned(line: Seq<char>, lineno: usize) -> Seq<TagView> {
    line_tags(
        line,
        lineno,
        captures_of(STATEMENT_PATTERN@, line),
        captures_of(RANGE_PATTERN@, line),
    )
}

/// A copy of `bindings`.
fn copy_bindings(bindings: &Vec<Binding>) -> (copy: Vec<Binding>)
    ensures
        bindings_view(copy@) == bindings_view(bindings@),
{
    let mut copy: Vec<Binding> = Vec::new();
    let mut i: usize = 0;
    while i < bindings.len()
        invariant
            i <= bindings@.len(),
            bindings_view(copy@) == bindings_view(bindings@.take(i as int)),
        decreases bindings@.len() - i,
    {
        let b = Binding { name: bindings[i].name.clone(), var: bindings[i].var };
        proof {
            assert(bindings@.take(i + 1) == bindings@.take(i as int).push(bindings@[i as int]));
            assert(bindings_view(copy@.push(b)) =~= bindings_view(copy@).push(b@));
            assert(bindings_view(bindings@.take(i + 1)) =~= bindings_view(
                bindings@.take(i as int),
            ).push(bindings@[i as int]@));
        }
        copy.push(b);
        i += 1;
    }
    assert(bindings@.take(i as int) == bindings@);
    copy
}

/// The variables that the groups of one match of the `range` pattern
/// declare.
fn bindings_from_groups(line: &str, chars: &Vec<char>, lineno: usize, groups: &Groups) -> (found:
    Vec<Binding>)
    requires
        chars@ == line@,
    ensures
        bindings_view(found@) == bindings_upto(line@, lineno, groups@, groups@.len() as int),
{
    let mut found: Vec<Binding> = Vec::new();
    let mut g: usize = 1;
    while g < groups.len()
        invariant
            1 <= g,
            chars@ == line@,
            bindings_view(found@) == bindings_upto(
                line@,
                lineno,
                groups@,
                if g <= groups@.len() {
                    g as int
                } else {
                    groups@.len() as int
                },
            ),
        decreases groups@.len() - g,
    {
        let ghost before = bindings_view(found@);
        match groups[g] {
            Some(span) => match columns_of_span(chars, span) {
                Some((a, b)) => {
                    let name: String = line.substring_char(a, b).to_owned();
                    let binding = Binding {
                        name,
                        var: Var::declared_at(Location { line: lineno, start: a, end: b }),
                    };
                    proof {
                        assert(bindings_view(found@.push(binding)) =~= before.push(binding@));
                    }
                    found.push(binding);
                },
                None => {},
            },
            None => {},
        }
        g += 1;
    }
    found
}

/// Builds the tags of a line from what the statement pattern and the
/// `range` pattern found on it: each is a list of matches, each match the
/// byte spans of its capture groups. A match whose group 1 is missing, or
/// is no span of the line, gives no tag.
pub fn tags_from_captures(
    line: &str,
    lineno: usize,
    statements: &Vec<Groups>,
    ranges: &Vec<Groups>,
) -> (tags: Vec<Tag>)
    ensures
        tags_view(tags@) == line_tags(
            line@,
            lineno,
            groups_of(statements@),
            groups_of(ranges@),
        ),
{
    let chars: Vec<char> = chars_of(line);
    let bindings: Vec<Binding> = if ranges.len() == 0 {
        Vec::new()
    } else {
        bindings_from_groups(line, &chars, lineno, &ranges[0])
    };
    assert(bindings_view(bindings@) =~= range_bindings(line@, lineno, groups_of(ranges@)));
    let mut tags: Vec<Tag> = Vec::new();
    let mut m: usize = 0;
    while m < statements.len()
        invariant
            m <= statements@.len(),
            chars@ == line@,
            bindings_view(bindings@) == range_bindings(line@, lineno, groups_of(ranges@)),
            tags_view(tags@) == tags_upto(
                line@,
                lineno,
                groups_of(statements@),
                bindings_view(bindings@),
                m as int,
            ),
        decreases statements@.len() - m,
    {
        let groups: &Groups = &statements[m];
        let ghost before = tags_view(tags@);
        if groups.len() > 1 {
            match groups[1] {
                Some(span) => match columns_of_span(&chars, span) {
                    Some((a, b)) => {
                        let text_chars: Vec<char> = slice_of(&chars, a, b);
                        let kind: TagKind = classify(&text_chars);
                        let declared: Vec<Binding> = match kind {
                            TagKind::Range => copy_bindings(&bindings),
                            _ => Vec::new(),
                        };
                        let tag = Tag {
                            kind,
                            text: line.substring_char(a, b).to_owned(),
                            location: Location { line: lineno, start: a, end: b },
                            bindings: declared,
                        };
                        proof {
                            assert(bindings_view(Seq::<Binding>::empty()) =~= Seq::<
                                BindingView,
                            >::empty());
                            assert(tags_view(tags@.push(tag)) =~= before.push(tag@));
                        }
                        tags.push(tag);
                    },
                    None => {},
                },
                None => {},
            }
        }
        m += 1;
    }
    tags
}

/// What one match of the helper pattern names: the text of its group 1.
/// `None` when group 1 is absent or its span is no span of the text.
pub open spec fn helper_of(text: Seq<char>, groups: Seq<Option<Span>>) -> Option<Seq<char>> {
    if groups.len() > 1 && groups[1] is Some {
        match span_columns(text, groups[1]->0) {
            Some((a, b)) => Some(text.subrange(a, b)),
            None => None,
        }
    } else {
        None
    }
}

/// What the first `upto` matches of the helper pattern name, in order.
pub open spec fn helpers_upto(text: Seq<char>, matches: Seq<Seq<Option<Span>>>, upto: int) -> Seq<
    Seq<char>,
>
    decreases upto,
{
    if upto <= 0 {
        Seq::empty()
    } else {
        let before = helpers_upto(text, matches, upto - 1);
        match helper_of(text, matches[upto - 1]) {
            Some(name) => before.push(name),
            None => before,
        }
    }
}

/// The named templates that a text defines: what the helper pattern
/// finds in it.
pub open spec fn helpers(text: Seq<char>) -> Seq<Seq<char>> {
    helpers_upto(
        text,
        captures_of(HELPERS_PATTERN@, text),
        captures_of(HELPERS_PATTERN@, text).len() as int,
    )
}

/// Reads the names of the defined templates off what the helper pattern
/// found in `text`: for each match, whatever stands between `define` and
/// the closing delimiter.
pub fn helpers_from_captures(text: &str, matches: &Vec<Groups>) -> (names: Vec<String>)
    ensures
        strings_view(names@) == helpers_upto(
            text@,
            groups_of(matches@),
            matches@.len() as int,
        ),
{
    let chars: Vec<char> = chars_of(text);
    let mut names: Vec<String> = Vec::new();
    let mut m: usize = 0;
    while m < matches.len()
        invariant
            m <= matches@.len(),
            chars@ == text@,
            strings_view(names@) == helpers_upto(text@, groups_of(matches@), m as int),
        decreases matches@.len() - m,
    {
        let groups: &Groups = &matches[m];
        let ghost before = strings_view(names@);
        if groups.len() > 1 {
            match groups[1] {
                Some(span) => match columns_of_span(&chars, span) {
                    Some((a, b)) => {
                        let name: String = text.substring_char(a, b).to_owned();
                        proof {
                            assert(strings_view(names@.push(name)) =~= before.push(name@));
                        }
                        names.push(name);
                    },
                    None => {},
                },
                None => {},
            }
        }
        m += 1;
    }
    names
}

/// Why no scanner could be made: the pattern that the engine refused.
#[derive(Clone, Copy, Debug, PartialEq, Eq, Structural)]
pub enum ScannerError {
    StatementPattern,
    RangePattern,
    HelpersPattern,
}

/// The scanner: the three patterns, compiled once.
#[derive(Debug)]
pub struct Scanner {
    statement: Engine,
    range: Engine,
    helpers: Engine,
}

impl Scanner {
    /// Each engine was compiled from its pattern.
    pub closed spec fn wf(&self) -> bool {
        &&& self.statement@ == STATEMENT_PATTERN@
        &&& self.range@ == RANGE_PATTERN@
        &&& self.helpers@ == HELPERS_PATTERN@
    }

    /// Compiles the patterns, in the order statement, range, helpers.
    /// Fails exactly when the pattern engine refuses one of them, and says
    /// which it refused first.
    pub fn new() -> (made: Result<Scanner, ScannerError>)
        ensures
            match made {
                Ok(scanner) => scanner.wf() && compiles(STATEMENT_PATTERN@) && compiles(
                    RANGE_PATTERN@,
                ) && compiles(HELPERS_PATTERN@),
                Err(ScannerError::StatementPattern) => !compiles(STATEMENT_PATTERN@),
                Err(ScannerError::RangePattern) => compiles(STATEMENT_PATTERN@) && !compiles(
                    RANGE_PATTERN@,
                ),
                Err(ScannerError::HelpersPattern) => compiles(STATEMENT_PATTERN@) && compiles(
                    RANGE_PATTERN@,
                ) && !compiles(HELPERS_PATTERN@),
            },
    {
        let statement = match compile(STATEMENT_PATTERN) {
            Ok(engine) => engine,
            Err(_) => {
                return Err(ScannerError::StatementPattern);
            },
        };
        let range = match compile(RANGE_PATTERN) {
            Ok(engine) => engine,
            Err(_) => {
                return Err(ScannerError::RangePattern);
            },
        };
        let helpers = match compile(HELPERS_PATTERN) {
            Ok(engine) => engine,
            Err(_) => {
                return Err(ScannerError::HelpersPattern);
            },
        };
        Ok(Scanner { statement, range, helpers })
    }

    /// Scans one line: finds its action tags from left to right,
    /// classifies each, and gives every `range` tag the variables that the
    /// line declares.
    pub fn scan_line(&self, line: &str, lineno: usize) -> (tags: Vec<Tag>)
        requires
            self.wf(),
        ensures
            tags_view(tags@) == scanned(line@, lineno),
    {
        let statements: Vec<Groups> = find_captures(&self.statement, line);
        let ranges: Vec<Groups> = find_captures(&self.range, line);
        tags_from_captures(line, lineno, &statements, &ranges)
    }

    /// Lists the named templates that `text` defines with
    /// `{{ define ... }}` headers. They open no scope and declare no
    /// variable.
    pub fn helper_names(&self, text: &str) -> (names: Vec<String>)
        requires
            self.wf(),
        ensures
            strings_view(names@) == helpers(text@),
    {
        let matches: Vec<Groups> = find_captures(&self.helpers, text);
        helpers_from_captures(text, &matches)
    }
}

} // verus!
