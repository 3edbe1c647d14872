//! The parsed configuration and the parser that builds it.
use vstd::prelude::*;
use crate::error::{Error, Failure};
use crate::grammar::{
    Mode, Scan, run, parsed, skip, name_end, value_end, ends_name, join, leave,
    lemma_skip, lemma_name_end, lemma_value_end,
};
use crate::text::{space, trim_bounds, push_range, push_char, push_decimal, trimmed, decimal};

verus! {

/// A configuration read from text: a mapping from dotted keys to values.
pub struct Configuration {
    options: Vec<(String, String)>,
}

/// The mapping that a list of entries describes; a later entry wins over an
/// earlier one with the same key.
pub open spec fn entries(s: Seq<(String, String)>) -> Map<Seq<char>, Seq<char>>
    decreases s.len(),
{
    if s.len() == 0 {
        Map::empty()
    } else {
        entries(s.drop_last()).insert(s.last().0@, s.last().1@)
    }
}

proof fn lemma_entries_tail(s: Seq<(String, String)>, i: int, k: Seq<char>)
    requires
        0 <= i <= s.len(),
        forall|j: int| i <= j < s.len() ==> s[j].0@ != k,
    ensures
        entries(s).contains_key(k) == entries(s.subrange(0, i)).contains_key(k),
        entries(s).contains_key(k) ==> entries(s)[k] == entries(s.subrange(0, i))[k],
    decreases s.len(),
{
    if i == s.len() {
        assert(s.subrange(0, i) =~= s);
    } else {
        lemma_entries_tail(s.drop_last(), i, k);
        assert(s.drop_last().subrange(0, i) =~= s.subrange(0, i));
    }
}

impl View for Configuration {
    type V = Map<Seq<char>, Seq<char>>;

    closed spec fn view(&self) -> Map<Seq<char>, Seq<char>> {
        entries(self.options@)
    }
}

/// The kind of the innermost open container while parsing.
enum ContainerState {
    Object,
    Array(usize),
}

impl View for ContainerState {
    type V = Mode;

    closed spec fn view(&self) -> Mode {
        match self {
            ContainerState::Object => Mode::Object,
            ContainerState::Array(n) => Mode::Array(*n as nat),
        }
    }
}

spec fn scopes_view(v: Seq<(String, ContainerState)>) -> Seq<(Seq<char>, Mode)> {
    v.map_values(|f: (String, ContainerState)| (f.0@, f.1@))
}

spec fn within(m: ContainerState, bound: nat) -> bool {
    match m {
        ContainerState::Object => true,
        ContainerState::Array(n) => n <= bound,
    }
}

/// The outcome of a parse, as plain values.
pub open spec fn outcome(r: &Result<Configuration, Error>) -> Result<Map<Seq<char>, Seq<char>>, Failure> {
    match r {
        Ok(c) => Ok(c@),
        Err(e) => Err(e@),
    }
}

/// The characters of `s`, in order.
fn chars_of(s: &str) -> (r: Vec<char>)
    ensures
        r@ == s@,
{
    let mut r: Vec<char> = Vec::new();
    for c in it: s.chars()
        invariant
            r@ == it.seq().subrange(0, it.index() as int),
    {
        r.push(c);
        assert(r@ =~= it.seq().subrange(0, it.index() + 1));
    }
    assert(r@ =~= s@);
    r
}

impl Configuration {
    /// The value stored under `option`, if any.
    pub fn get(&self, option: &str) -> (r: Option<&str>)
        ensures
            r is Some <==> self@.contains_key(option@),
            r is Some ==> r->Some_0@ == self@[option@],
    {
        let key = option.to_owned();
        match self.find(&key) {
            Some(i) => Some(self.options[i].1.as_str()),
            None => None,
        }
    }

    fn find(&self, key: &String) -> (r: Option<usize>)
        ensures
            r is None <==> !self@.contains_key(key@),
            r is Some ==> r->Some_0 < self.options.len() && self@[key@] == self.options@[r->Some_0 as int].1@,
    {
        let mut i = self.options.len();
        while i > 0
            invariant
                i <= self.options.len(),
                forall|j: int| i <= j < self.options.len() ==> self.options@[j].0@ != key@,
            decreases i,
        {
            if self.options[i - 1].0 == *key {
                proof {
                    lemma_entries_tail(self.options@, i as int, key@);
                    assert(self.options@.subrange(0, i as int).drop_last() =~= self.options@.subrange(0, i - 1));
                }
                return Some(i - 1);
            }
            i = i - 1;
        }
        proof {
            lemma_entries_tail(self.options@, 0, key@);
        }
        None
    }
}

spec fn scan_of(
    pos: usize,
    line: usize,
    path: String,
    mode: ContainerState,
    scopes: Seq<(String, ContainerState)>,
    options: Seq<(String, String)>,
) -> Scan {
    Scan {
        pos: pos as nat,
        line: line as nat,
        path: path@,
        mode: mode@,
        scopes: scopes_view(scopes),
        options: entries(options),
    }
}

fn is_name_end(c: char) -> (r: bool)
    ensures
        r == ends_name(c),
{
    c == '{' || c == '[' || c == ':' || c == '}' || c == '#' || c == '\n'
}

fn skip_blank(chars: &Vec<char>, pos: usize, line: usize) -> (r: (usize, usize))
    requires
        pos <= chars.len(),
        line <= pos,
    ensures
        (r.0 as nat, r.1 as nat) == skip(chars@, pos as nat, line as nat, false),
        r.1 <= r.0 <= chars.len(),
{
    let len = chars.len();
    let mut p = pos;
    let mut l = line;
    let mut comment = false;
    while p < len && (comment || chars[p] == '#' || space(chars[p]))
        invariant
            len == chars.len(),
            pos <= p <= len,
            l <= p,
            skip(chars@, p as nat, l as nat, comment) == skip(chars@, pos as nat, line as nat, false),
        decreases len - p,
    {
        let c = chars[p];
        if c == '\n' {
            l = l + 1;
            comment = false;
        } else if comment || c == '#' {
            comment = true;
        }
        p = p + 1;
    }
    assert(skip(chars@, p as nat, l as nat, comment) == (p as nat, l as nat));
    (p, l)
}

fn scan_name(chars: &Vec<char>, pos: usize) -> (r: usize)
    requires
        pos <= chars.len(),
    ensures
        r == name_end(chars@, pos as nat),
{
    let mut e = pos;
    while e < chars.len() && !is_name_end(chars[e])
        invariant
            pos <= e <= chars.len(),
            name_end(chars@, e as nat) == name_end(chars@, pos as nat),
        decreases chars.len() - e,
    {
        e = e + 1;
    }
    e
}

fn scan_value(chars: &Vec<char>, pos: usize) -> (r: usize)
    requires
        pos <= chars.len(),
    ensures
        r == value_end(chars@, pos as nat),
{
    let mut v = pos;
    while v < chars.len() && chars[v] != '#' && chars[v] != '\n'
        invariant
            pos <= v <= chars.len(),
            value_end(chars@, v as nat) == value_end(chars@, pos as nat),
        decreases chars.len() - v,
    {
        v = v + 1;
    }
    v
}

impl Configuration {
    /// Loads a configuration from the contents of its file, or from `None`
    /// where the file does not exist, which gives an empty configuration.
    pub fn load(contents: Option<&str>) -> (r: Result<Configuration, Error>)
        ensures
            contents is None ==> r is Ok && r->Ok_0@ == Map::<Seq<char>, Seq<char>>::empty(),
            contents is Some ==> outcome(&r) == parsed(contents->Some_0@),
    {
        match contents {
            Some(text) => Self::parse(text),
            None => {
                let empty = Configuration { options: Vec::new() };
                assert(empty@ == Map::<Seq<char>, Seq<char>>::empty());
                Ok(empty)
            },
        }
    }

    /// Reads a configuration from the whole of `text`.
    pub fn parse(text: &str) -> (r: Result<Configuration, Error>)
        ensures
            outcome(&r) == parsed(text@),
    {
        let chars = chars_of(text);
        let len = chars.len();
        let mut pos: usize = 0;
        let mut line: usize = 0;
        let mut path = String::new();
        let mut mode = ContainerState::Object;
        let mut scopes: Vec<(String, ContainerState)> = Vec::new();
        let mut options: Vec<(String, String)> = Vec::new();
        assert(scopes_view(scopes@) =~= Seq::empty());
        assert(entries(options@) == Map::<Seq<char>, Seq<char>>::empty());
        assert(scan_of(pos, line, path, mode, scopes@, options@) == crate::grammar::start());
        loop
            invariant
                chars@ == text@,
                len == chars.len(),
                line <= pos <= len,
                within(mode, pos as nat),
                forall|i: int| 0 <= i < scopes.len() ==> within(#[trigger] scopes@[i].1, pos as nat),
                run(chars@, scan_of(pos, line, path, mode, scopes@, options@)) == parsed(chars@),
            decreases len - pos,
        {
            let ghost before = scan_of(pos, line, path, mode, scopes@, options@);
            let (p, l) = skip_blank(&chars, pos, line);
            proof {
                lemma_skip(chars@, before.pos, before.line, false);
            }
            pos = p;
            line = l;
            if pos >= len {
                assert(scopes_view(scopes@).len() == scopes.len());
                assert(skip(chars@, before.pos, before.line, false) == (pos as nat, line as nat));
                if scopes.len() == 0 {
                    assert(run(chars@, before) == Ok::<Map<Seq<char>, Seq<char>>, Failure>(before.options));
                    let done = Configuration { options };
                    assert(done@ == before.options);
                    return Ok(done);
                } else {
                    return Err(Error::UnexpectedEndOfFile);
                }
            }
            let ghost s = Scan { line: line as nat, ..before };
            assert(scopes_view(scopes@).len() == scopes.len());
            match mode {
                ContainerState::Array(n) => {
                    let c = chars[pos];
                    if c == '{' || c == '[' {
                        let parent = path.clone();
                        scopes.push((parent, ContainerState::Array(n + 1)));
                        if !path.as_str().is_empty() {
                            push_char(&mut path, '.');
                        }
                        push_decimal(&mut path, n);
                        mode = if c == '{' { ContainerState::Object } else { ContainerState::Array(0) };
                        pos = pos + 1;
                        assert(path@ =~= join(s.path, decimal(n as nat)));
                        assert(scopes_view(scopes@) =~= s.scopes.push((s.path, Mode::Array((n + 1) as nat))));
                    } else if c == ']' {
                        Self::close(&mut path, &mut mode, &mut scopes);
                        pos = pos + 1;
                    } else {
                        return Err(Error::UnexpectedCharacter(c, line));
                    }
                },
                ContainerState::Object => {
                    let start = pos;
                    let e = scan_name(&chars, pos);
                    proof {
                        lemma_name_end(chars@, pos as nat);
                    }
                    if e >= len {
                        return Err(Error::UnexpectedEndOfFile);
                    }
                    let m = chars[e];
                    if m == '#' {
                        return Err(Error::UnexpectedComment(line));
                    }
                    if m == '\n' {
                        return Err(Error::UnexpectedEndOfLine(line));
                    }
                    let (a, b) = trim_bounds(&chars, start, e);
                    if m != '}' && a == b {
                        return Err(Error::EmptyKey(line));
                    }
                    if m == '}' && a != b {
                        return Err(Error::UnexpectedEndOfContainer(line));
                    }
                    if m == '}' {
                        Self::close(&mut path, &mut mode, &mut scopes);
                        pos = e + 1;
                    } else {
                        let mut key = path.clone();
                        if !path.as_str().is_empty() {
                            push_char(&mut key, '.');
                        }
                        push_range(&mut key, &chars, a, b);
                        assert(key@ =~= join(s.path, trimmed(chars@, start as int, e as int)));
                        if m == ':' {
                            let table = Configuration { options };
                            if table.find(&key).is_some() {
                                return Err(Error::RepeatedOption(key, line));
                            }
                            options = table.options;
                            let v = scan_value(&chars, e + 1);
                            proof {
                                lemma_value_end(chars@, (e + 1) as nat);
                            }
                            let (va, vb) = trim_bounds(&chars, e + 1, v);
                            let mut value = String::new();
                            push_range(&mut value, &chars, va, vb);
                            assert(value@ =~= trimmed(chars@, (e + 1) as int, v as int));
                            let ghost prior = options@;
                            options.push((key, value));
                            assert(options@.drop_last() =~= prior);
                            if v < len && chars[v] == '\n' {
                                pos = v + 1;
                                line = line + 1;
                            } else {
                                pos = v;
                            }
                        } else {
                            scopes.push((path, ContainerState::Object));
                            path = key;
                            mode = if m == '{' { ContainerState::Object } else { ContainerState::Array(0) };
                            pos = e + 1;
                            assert(scopes_view(scopes@) =~= s.scopes.push((s.path, Mode::Object)));
                        }
                    }
                },
            }
        }
    }

    /// Closes the innermost container; with none open, returns to the top level.
    fn close(path: &mut String, mode: &mut ContainerState, scopes: &mut Vec<(String, ContainerState)>)
        ensures
            ({
                let s = Scan { pos: 0, line: 0, path: old(path)@, mode: old(mode)@, scopes: scopes_view(old(scopes)@), options: Map::empty() };
                let n = leave(s, 0);
                &&& final(path)@ == n.path
                &&& final(mode)@ == n.mode
                &&& scopes_view(final(scopes)@) == n.scopes
            }),
            final(scopes)@ == old(scopes)@.subrange(0, final(scopes)@.len() as int),
            old(scopes)@.len() > 0 ==> *final(mode) == old(scopes)@.last().1,
            old(scopes)@.len() == 0 ==> *final(mode) == ContainerState::Object,
    {
        match scopes.pop() {
            Some(frame) => {
                *path = frame.0;
                *mode = frame.1;
                assert(scopes_view(scopes@) =~= scopes_view(old(scopes)@).drop_last());
            },
            None => {
                *path = String::new();
                *mode = ContainerState::Object;
            },
        }
    }
}

/// Loading is deterministic: two configurations loaded from the same text
/// hold the same keys with the same values.
pub proof fn lemma_load_idempotent(
    text: Seq<char>,
    first: &Result<Configuration, Error>,
    second: &Result<Configuration, Error>,
)
    requires
        outcome(first) == parsed(text),
        outcome(second) == parsed(text),
        first is Ok,
    ensures
        second is Ok,
        first->Ok_0@ == second->Ok_0@,
{
}

} // verus!
