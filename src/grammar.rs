//! The file format, stated as a scanner over the characters of the input.
//!
//! `parsed(text)` is the outcome of reading `text`: the flat mapping from
//! dotted keys to values, or the first failure met. The parser in
//! `configuration` is proved to compute exactly this.
use vstd::prelude::*;
use crate::error::Failure;
use crate::text::{is_space, trimmed, decimal};

verus! {

/// The kind of the innermost open container.
pub enum Mode {
    /// Named members: `name: value`, `name { .. }`, `name [ .. ]`.
    Object,
    /// Unnamed containers; the payload is the index the next one receives.
    Array(nat),
}

/// The state of the scanner between two members.
pub struct Scan {
    /// Index of the next character to read.
    pub pos: nat,
    /// Newlines consumed so far.
    pub line: nat,
    /// Dotted path of the innermost open container (empty at top level).
    pub path: Seq<char>,
    /// Kind of the innermost open container.
    pub mode: Mode,
    /// Path and kind to restore when each open container closes, outermost first.
    pub scopes: Seq<(Seq<char>, Mode)>,
    /// Values read so far.
    pub options: Map<Seq<char>, Seq<char>>,
}

/// The scanner before the first character.
pub open spec fn start() -> Scan {
    Scan {
        pos: 0,
        line: 0,
        path: Seq::empty(),
        mode: Mode::Object,
        scopes: Seq::empty(),
        options: Map::empty(),
    }
}

/// `segment` appended to `path`, with a `.` between them unless `path` is empty.
pub open spec fn join(path: Seq<char>, segment: Seq<char>) -> Seq<char> {
    if path.len() == 0 {
        segment
    } else {
        path + seq!['.'] + segment
    }
}

/// Skips white space and comments from `pos`. A comment runs from `#` through
/// the end of its line. Returns the position of the next significant character
/// (or the end) and the line count there. `comment` says whether `pos` lies
/// inside a comment.
pub open spec fn skip(text: Seq<char>, pos: nat, line: nat, comment: bool) -> (nat, nat)
    decreases text.len() - pos,
{
    if pos >= text.len() {
        (pos, line)
    } else {
        let c = text[pos as int];
        if c == '\n' {
            skip(text, pos + 1, line + 1, false)
        } else if comment || c == '#' {
            skip(text, pos + 1, line, true)
        } else if is_space(c) {
            skip(text, pos + 1, line, false)
        } else {
            (pos, line)
        }
    }
}

/// Characters that end a member name.
pub open spec fn ends_name(c: char) -> bool {
    c == '{' || c == '[' || c == ':' || c == '}' || c == '#' || c == '\n'
}

/// The first position at or after `pos` holding a character that ends a name,
/// or the end of the text.
pub open spec fn name_end(text: Seq<char>, pos: nat) -> nat
    decreases text.len() - pos,
{
    if pos >= text.len() || ends_name(text[pos as int]) {
        pos
    } else {
        name_end(text, pos + 1)
    }
}

/// The first position at or after `pos` holding `#` or a newline, or the end
/// of the text: where a value ends.
pub open spec fn value_end(text: Seq<char>, pos: nat) -> nat
    decreases text.len() - pos,
{
    if pos >= text.len() || text[pos as int] == '#' || text[pos as int] == '\n' {
        pos
    } else {
        value_end(text, pos + 1)
    }
}

/// Enter a container named `segment`, resuming the current one as `resume`
/// when it closes.
pub open spec fn enter(s: Scan, pos: nat, segment: Seq<char>, mode: Mode, resume: Mode) -> Scan {
    Scan {
        pos,
        path: join(s.path, segment),
        mode,
        scopes: s.scopes.push((s.path, resume)),
        ..s
    }
}

/// Close the innermost container. A close with nothing open returns to the top level.
pub open spec fn leave(s: Scan, pos: nat) -> Scan {
    if s.scopes.len() == 0 {
        Scan { pos, path: Seq::empty(), mode: Mode::Object, ..s }
    } else {
        Scan {
            pos,
            path: s.scopes.last().0,
            mode: s.scopes.last().1,
            scopes: s.scopes.drop_last(),
            ..s
        }
    }
}

pub proof fn lemma_skip(text: Seq<char>, pos: nat, line: nat, comment: bool)
    ensures
        pos <= skip(text, pos, line, comment).0,
        pos <= text.len() ==> skip(text, pos, line, comment).0 <= text.len(),
        line <= skip(text, pos, line, comment).1,
        skip(text, pos, line, comment).1 - line <= skip(text, pos, line, comment).0 - pos,
    decreases text.len() - pos,
{
    if pos < text.len() {
        let c = text[pos as int];
        if c == '\n' {
            lemma_skip(text, pos + 1, line + 1, false);
        } else if comment || c == '#' {
            lemma_skip(text, pos + 1, line, true);
        } else if is_space(c) {
            lemma_skip(text, pos + 1, line, false);
        }
    }
}

pub proof fn lemma_name_end(text: Seq<char>, pos: nat)
    requires
        pos <= text.len(),
    ensures
        pos <= name_end(text, pos) <= text.len(),
        name_end(text, pos) < text.len() ==> ends_name(text[name_end(text, pos) as int]),
    decreases text.len() - pos,
{
    if pos < text.len() && !ends_name(text[pos as int]) {
        lemma_name_end(text, pos + 1);
    }
}

pub proof fn lemma_value_end(text: Seq<char>, pos: nat)
    requires
        pos <= text.len(),
    ensures
        pos <= value_end(text, pos) <= text.len(),
    decreases text.len() - pos,
{
    if pos < text.len() && text[pos as int] != '#' && text[pos as int] != '\n' {
        lemma_value_end(text, pos + 1);
    }
}

/// Reads `text` from the state `s` to the end: the mapping read, or the first failure.
pub open spec fn run(text: Seq<char>, s: Scan) -> Result<Map<Seq<char>, Seq<char>>, Failure>
    decreases text.len() - s.pos,
{
    let (p, l) = skip(text, s.pos, s.line, false);
    proof {
        lemma_skip(text, s.pos, s.line, false);
    }
    if p >= text.len() {
        if s.scopes.len() == 0 {
            Ok(s.options)
        } else {
            Err(Failure::UnexpectedEndOfFile)
        }
    } else {
        let s = Scan { pos: p, line: l, ..s };
        let c = text[p as int];
        match s.mode {
            Mode::Array(n) => {
                if c == '{' {
                    run(text, enter(s, p + 1, decimal(n), Mode::Object, Mode::Array(n + 1)))
                } else if c == '[' {
                    run(text, enter(s, p + 1, decimal(n), Mode::Array(0), Mode::Array(n + 1)))
                } else if c == ']' {
                    run(text, leave(s, p + 1))
                } else {
                    Err(Failure::UnexpectedCharacter(c, l))
                }
            },
            Mode::Object => {
                let e = name_end(text, p);
                proof {
                    lemma_name_end(text, p);
                }
                if e >= text.len() {
                    Err(Failure::UnexpectedEndOfFile)
                } else {
                    let m = text[e as int];
                    let name = trimmed(text, p as int, e as int);
                    if m == '#' {
                        Err(Failure::UnexpectedComment(l))
                    } else if m == '\n' {
                        Err(Failure::UnexpectedEndOfLine(l))
                    } else if m != '}' && name.len() == 0 {
                        Err(Failure::EmptyKey(l))
                    } else if m == '}' && name.len() != 0 {
                        Err(Failure::UnexpectedEndOfContainer(l))
                    } else if m == '{' {
                        run(text, enter(s, e + 1, name, Mode::Object, Mode::Object))
                    } else if m == '[' {
                        run(text, enter(s, e + 1, name, Mode::Array(0), Mode::Object))
                    } else if m == ':' {
                        let key = join(s.path, name);
                        if s.options.contains_key(key) {
                            Err(Failure::RepeatedOption(key, l))
                        } else {
                            let v = value_end(text, e + 1);
                            proof {
                                lemma_value_end(text, e + 1);
                            }
                            let value = trimmed(text, (e + 1) as int, v as int);
                            let options = s.options.insert(key, value);
                            if v < text.len() && text[v as int] == '\n' {
                                run(text, Scan { pos: v + 1, line: l + 1, options, ..s })
                            } else {
                                run(text, Scan { pos: v, options, ..s })
                            }
                        }
                    } else {
                        run(text, leave(s, e + 1))
                    }
                }
            },
        }
    }
}

/// The outcome of reading the whole of `text`.
pub open spec fn parsed(text: Seq<char>) -> Result<Map<Seq<char>, Seq<char>>, Failure> {
    run(text, start())
}

} // verus!
