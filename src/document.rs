//! Documents as trees of members, and what reading a written document gives.
use vstd::prelude::*;
use crate::error::Failure;
use crate::grammar::{Mode, Scan, run, parsed, start, skip, name_end, value_end, ends_name, join, enter, leave};
use crate::text::{is_space, trim_lo, trim_hi, trimmed, decimal, lemma_trim_bounds};

verus! {

/// A member of an object. Inside an array the name of a member is not written.
pub enum Member {
    /// `name: value`
    Value(Seq<char>, Seq<char>),
    /// `name { members }`
    Object(Seq<char>, Members),
    /// `name [ elements ]`; each element is an object or an array.
    Array(Seq<char>, Members),
}

/// A list of members.
pub enum Members {
    Nil,
    Cons(Box<Member>, Box<Members>),
}

pub open spec fn name_of(m: Member) -> Seq<char> {
    match m {
        Member::Value(n, _) => n,
        Member::Object(n, _) => n,
        Member::Array(n, _) => n,
    }
}

/// A name that reads back as itself: not empty, no character that ends a
/// name, no white space at either end.
pub open spec fn good_name(n: Seq<char>) -> bool {
    &&& n.len() > 0
    &&& forall|i: int| 0 <= i < n.len() ==> !ends_name(#[trigger] n[i])
    &&& !is_space(n[0])
    &&& !is_space(n.last())
}

/// A value that reads back as itself: no `#`, no newline, no white space at either end.
pub open spec fn good_value(v: Seq<char>) -> bool {
    &&& forall|i: int| 0 <= i < v.len() ==> #[trigger] v[i] != '#' && v[i] != '\n'
    &&& v.len() > 0 ==> !is_space(v[0]) && !is_space(v.last())
}

/// Every name and value can be written, and arrays hold only containers.
pub open spec fn good_member(m: Member) -> bool
    decreases m,
{
    match m {
        Member::Value(n, v) => good_name(n) && good_value(v),
        Member::Object(n, ms) => good_name(n) && good_members(ms),
        Member::Array(n, es) => good_name(n) && good_elements(es),
    }
}

pub open spec fn good_members(ms: Members) -> bool
    decreases ms,
{
    match ms {
        Members::Nil => true,
        Members::Cons(m, rest) => good_member(*m) && good_members(*rest),
    }
}

pub open spec fn good_elements(es: Members) -> bool
    decreases es,
{
    match es {
        Members::Nil => true,
        Members::Cons(e, rest) => is_container(*e) && good_member(*e) && good_elements(*rest),
    }
}

/// An object or an array.
pub open spec fn is_container(m: Member) -> bool {
    !(m is Value)
}

/// What follows the name of a member when it is written.
pub open spec fn body(m: Member) -> Seq<char>
    decreases m,
{
    match m {
        Member::Value(_, v) => seq![':'] + v + seq!['\n'],
        Member::Object(_, ms) => seq!['{'] + members_text(ms) + seq!['}'],
        Member::Array(_, es) => seq!['['] + elements_text(es) + seq![']'],
    }
}

pub open spec fn members_text(ms: Members) -> Seq<char>
    decreases ms,
{
    match ms {
        Members::Nil => Seq::empty(),
        Members::Cons(m, rest) => name_of(*m) + body(*m) + members_text(*rest),
    }
}

pub open spec fn elements_text(es: Members) -> Seq<char>
    decreases es,
{
    match es {
        Members::Nil => Seq::empty(),
        Members::Cons(e, rest) => body(*e) + elements_text(*rest),
    }
}

/// The values that the body of `m`, at dotted path `path`, declares, in order.
pub open spec fn declared_body(path: Seq<char>, m: Member) -> Seq<(Seq<char>, Seq<char>)>
    decreases m,
{
    match m {
        Member::Value(_, v) => seq![(path, v)],
        Member::Object(_, ms) => declared_members(path, ms),
        Member::Array(_, es) => declared_elements(path, es, 0),
    }
}

pub open spec fn declared_members(path: Seq<char>, ms: Members) -> Seq<(Seq<char>, Seq<char>)>
    decreases ms,
{
    match ms {
        Members::Nil => Seq::empty(),
        Members::Cons(m, rest) => declared_body(join(path, name_of(*m)), *m) + declared_members(path, *rest),
    }
}

/// Elements of an array at `path`, the first of them numbered `k`.
pub open spec fn declared_elements(path: Seq<char>, es: Members, k: nat) -> Seq<(Seq<char>, Seq<char>)>
    decreases es,
{
    match es {
        Members::Nil => Seq::empty(),
        Members::Cons(e, rest) => declared_body(join(path, decimal(k)), *e) + declared_elements(path, *rest, k + 1),
    }
}

/// No two of the pairs share a key.
pub open spec fn distinct_keys(d: Seq<(Seq<char>, Seq<char>)>) -> bool {
    forall|i: int, j: int| 0 <= i < j < d.len() ==> d[i].0 != d[j].0
}

/// `m` with the pairs inserted in order.
pub open spec fn insert_all(m: Map<Seq<char>, Seq<char>>, d: Seq<(Seq<char>, Seq<char>)>) -> Map<Seq<char>, Seq<char>>
    decreases d.len(),
{
    if d.len() == 0 {
        m
    } else {
        insert_all(m, d.drop_last()).insert(d.last().0, d.last().1)
    }
}

/// The pairs have distinct keys, none of them a key of `m`.
pub open spec fn fresh(m: Map<Seq<char>, Seq<char>>, d: Seq<(Seq<char>, Seq<char>)>) -> bool {
    &&& distinct_keys(d)
    &&& forall|i: int| 0 <= i < d.len() ==> !m.contains_key(#[trigger] d[i].0)
}

proof fn lemma_insert_all_append(m: Map<Seq<char>, Seq<char>>, a: Seq<(Seq<char>, Seq<char>)>, b: Seq<(Seq<char>, Seq<char>)>)
    ensures
        insert_all(m, a + b) == insert_all(insert_all(m, a), b),
    decreases b.len(),
{
    if b.len() == 0 {
        assert(a + b =~= a);
    } else {
        lemma_insert_all_append(m, a, b.drop_last());
        assert((a + b).drop_last() =~= a + b.drop_last());
    }
}

proof fn lemma_insert_all_domain(m: Map<Seq<char>, Seq<char>>, d: Seq<(Seq<char>, Seq<char>)>, k: Seq<char>)
    ensures
        insert_all(m, d).contains_key(k) <==> (m.contains_key(k) || exists|i: int| 0 <= i < d.len() && d[i].0 == k),
    decreases d.len(),
{
    if d.len() > 0 {
        lemma_insert_all_domain(m, d.drop_last(), k);
        if exists|i: int| 0 <= i < d.len() && d[i].0 == k {
            let i = choose|i: int| 0 <= i < d.len() && d[i].0 == k;
            if i < d.len() - 1 {
                assert(d.drop_last()[i].0 == k);
            }
        }
        if exists|i: int| 0 <= i < d.drop_last().len() && d.drop_last()[i].0 == k {
            let i = choose|i: int| 0 <= i < d.drop_last().len() && d.drop_last()[i].0 == k;
            assert(d[i].0 == k);
        }
    }
}

proof fn lemma_insert_all_value(m: Map<Seq<char>, Seq<char>>, d: Seq<(Seq<char>, Seq<char>)>, i: int)
    requires
        distinct_keys(d),
        0 <= i < d.len(),
    ensures
        insert_all(m, d).contains_key(d[i].0),
        insert_all(m, d)[d[i].0] == d[i].1,
    decreases d.len(),
{
    if i < d.len() - 1 {
        lemma_insert_all_value(m, d.drop_last(), i);
        assert(d.drop_last()[i] == d[i]);
    }
}

proof fn lemma_fresh_split(m: Map<Seq<char>, Seq<char>>, a: Seq<(Seq<char>, Seq<char>)>, b: Seq<(Seq<char>, Seq<char>)>)
    requires
        fresh(m, a + b),
    ensures
        fresh(m, a),
        fresh(insert_all(m, a), b),
{
    assert forall|i: int, j: int| 0 <= i < j < a.len() implies a[i].0 != a[j].0 by {
        assert((a + b)[i] == a[i] && (a + b)[j] == a[j]);
    }
    assert forall|i: int| 0 <= i < a.len() implies !m.contains_key(#[trigger] a[i].0) by {
        assert((a + b)[i] == a[i]);
    }
    assert forall|i: int, j: int| 0 <= i < j < b.len() implies b[i].0 != b[j].0 by {
        assert((a + b)[a.len() + i] == b[i] && (a + b)[a.len() + j] == b[j]);
    }
    assert forall|i: int| 0 <= i < b.len() implies !insert_all(m, a).contains_key(#[trigger] b[i].0) by {
        assert((a + b)[a.len() + i] == b[i]);
        lemma_insert_all_domain(m, a, b[i].0);
        if exists|j: int| 0 <= j < a.len() && a[j].0 == b[i].0 {
            let j = choose|j: int| 0 <= j < a.len() && a[j].0 == b[i].0;
            assert((a + b)[j] == a[j]);
        }
    }
}

/// The number of members in a list.
pub open spec fn count(ms: Members) -> nat
    decreases ms,
{
    match ms {
        Members::Nil => 0,
        Members::Cons(_, rest) => 1 + count(*rest),
    }
}

/// `s` moved past `n` characters holding the pairs `d`.
pub open spec fn past(s: Scan, n: int, d: Seq<(Seq<char>, Seq<char>)>) -> Scan {
    Scan { pos: (s.pos + n) as nat, line: s.line + d.len(), options: insert_all(s.options, d), ..s }
}

proof fn lemma_piece(t: Seq<char>, p: int, x: Seq<char>, i: int, j: int)
    requires
        0 <= p,
        p + x.len() <= t.len(),
        t.subrange(p, p + x.len()) == x,
        0 <= i <= j <= x.len(),
    ensures
        t.subrange(p + i, p + j) == x.subrange(i, j),
        forall|k: int| i <= k < j ==> t[p + k] == #[trigger] x[k],
{
    assert forall|k: int| i <= k < j implies t[p + k] == #[trigger] x[k] by {
        assert(t.subrange(p, p + x.len())[k] == t[p + k]);
    }
    assert(t.subrange(p + i, p + j) =~= x.subrange(i, j));
}

proof fn lemma_name_reads(t: Seq<char>, p: nat, e: nat)
    requires
        p <= e < t.len(),
        forall|j: int| p <= j < e ==> !ends_name(#[trigger] t[j]),
        ends_name(t[e as int]),
    ensures
        name_end(t, p) == e,
    decreases e - p,
{
    if p < e {
        lemma_name_reads(t, p + 1, e);
    }
}

/// At a written member, the scanner reads its name and stops at its body.
proof fn lemma_name_step(t: Seq<char>, s: Scan, m: Member)
    requires
        good_member(m),
        s.pos + (name_of(m) + body(m)).len() <= t.len(),
        t.subrange(s.pos as int, (s.pos + (name_of(m) + body(m)).len()) as int) == name_of(m) + body(m),
    ensures
        skip(t, s.pos, s.line, false) == (s.pos, s.line),
        name_end(t, s.pos) == s.pos + name_of(m).len(),
        trimmed(t, s.pos as int, (s.pos + name_of(m).len()) as int) == name_of(m),
        t.subrange((s.pos + name_of(m).len()) as int, (s.pos + (name_of(m) + body(m)).len()) as int) == body(m),
{
    let n = name_of(m);
    let x = n + body(m);
    let p = s.pos;
    let e = (p + n.len()) as nat;
    lemma_piece(t, p as int, x, 0, x.len() as int);
    assert(x[0] == n[0]);
    assert forall|j: int| p <= j < e implies !ends_name(#[trigger] t[j]) by {
        assert(x[j - p] == n[j - p]);
    }
    assert(x[n.len() as int] == body(m)[0]);
    assert(ends_name(body(m)[0])) by {
        match m {
            Member::Value(_, v) => {},
            Member::Object(_, ms) => {},
            Member::Array(_, es) => {},
        }
    }
    lemma_name_reads(t, p, e);
    assert(x[n.len() - 1] == n.last());
    lemma_trim_clean(t, p as int, e as int);
    lemma_piece(t, p as int, x, 0, n.len() as int);
    assert(x.subrange(0, n.len() as int) =~= n);
    lemma_piece(t, p as int, x, n.len() as int, x.len() as int);
    assert(x.subrange(n.len() as int, x.len() as int) =~= body(m));
}

proof fn lemma_value_reads(t: Seq<char>, q: nat, e: nat)
    requires
        q <= e < t.len(),
        forall|j: int| q <= j < e ==> #[trigger] t[j] != '#' && t[j] != '\n',
        t[e as int] == '\n' || t[e as int] == '#',
    ensures
        value_end(t, q) == e,
    decreases e - q,
{
    if q < e {
        lemma_value_reads(t, q + 1, e);
    }
}

/// Reading a written name or value gives it back untrimmed.
proof fn lemma_trim_clean(t: Seq<char>, p: int, e: int)
    requires
        0 <= p <= e <= t.len(),
        p < e ==> !is_space(t[p]) && !is_space(t[e - 1]),
    ensures
        trimmed(t, p, e) == t.subrange(p, e),
{
}

/// Closing the container entered from `s` returns to `s`'s path, scopes and kind.
proof fn lemma_leave_enter(s: Scan, p: nat, segment: Seq<char>, mode: Mode, resume: Mode, q: nat, line: nat, options: Map<Seq<char>, Seq<char>>, mode2: Mode)
    ensures
        leave((Scan { pos: q, line, options, mode: mode2, ..enter(s, p, segment, mode, resume) }), q + 1)
            == (Scan { pos: q + 1, line, options, mode: resume, ..s }),
{
    let inner = enter(s, p, segment, mode, resume);
    assert(inner.scopes.drop_last() =~= s.scopes);
}

proof fn lemma_read_value(t: Seq<char>, s: Scan, m: Member)
    requires
        s.mode == Mode::Object,
        good_member(m),
        m is Value,
        s.pos + (name_of(m) + body(m)).len() <= t.len(),
        t.subrange(s.pos as int, (s.pos + (name_of(m) + body(m)).len()) as int) == name_of(m) + body(m),
        fresh(s.options, declared_body(join(s.path, name_of(m)), m)),
    ensures
        run(t, s) == run(t, past(s, (name_of(m) + body(m)).len() as int, declared_body(join(s.path, name_of(m)), m))),
{
    let n = name_of(m);
    let v = m->Value_1;
    let x = n + body(m);
    let p = s.pos;
    let e = (p + n.len()) as nat;
    let key = join(s.path, n);
    let d = declared_body(key, m);
    lemma_name_step(t, s, m);
    let y = body(m);
    lemma_piece(t, e as int, y, 0, y.len() as int);
    assert(y[0] == ':');
    assert(t[e as int] == ':');
    let q = e + 1;
    let f = (q + v.len()) as nat;
    assert forall|j: int| q <= j < f implies #[trigger] t[j] != '#' && t[j] != '\n' by {
        assert(y[j - e] == v[j - q]);
    }
    assert(y[f - e] == '\n');
    lemma_value_reads(t, q, f);
    if v.len() > 0 {
        assert(y[q - e] == v[0]);
        assert(y[f - 1 - e] == v.last());
    }
    lemma_trim_clean(t, q as int, f as int);
    lemma_piece(t, e as int, y, q - e, f - e);
    assert(y.subrange(q - e, f - e) =~= v);
    assert(trimmed(t, q as int, f as int) == v);
    assert(d == seq![(key, v)]);
    assert(d.drop_last() =~= Seq::<(Seq<char>, Seq<char>)>::empty());
    assert(insert_all(s.options, d.drop_last()) == s.options);
    assert(insert_all(s.options, d) == s.options.insert(key, v));
    assert(!s.options.contains_key(key)) by {
        assert(d[0].0 == key);
    }
    assert(past(s, x.len() as int, d) == (Scan { pos: f + 1, line: s.line + 1, options: s.options.insert(key, v), ..s }));
}

proof fn lemma_read_member(t: Seq<char>, s: Scan, m: Member)
    requires
        s.mode == Mode::Object,
        good_member(m),
        s.pos + (name_of(m) + body(m)).len() <= t.len(),
        t.subrange(s.pos as int, (s.pos + (name_of(m) + body(m)).len()) as int) == name_of(m) + body(m),
        fresh(s.options, declared_body(join(s.path, name_of(m)), m)),
    ensures
        run(t, s) == run(t, past(s, (name_of(m) + body(m)).len() as int, declared_body(join(s.path, name_of(m)), m))),
    decreases m, 2nat,
{
    match m {
        Member::Value(_, _) => lemma_read_value(t, s, m),
        Member::Object(_, _) => lemma_read_object(t, s, m),
        Member::Array(_, _) => lemma_read_array(t, s, m),
    }
}

proof fn lemma_read_object(t: Seq<char>, s: Scan, m: Member)
    requires
        s.mode == Mode::Object,
        good_member(m),
        m is Object,
        s.pos + (name_of(m) + body(m)).len() <= t.len(),
        t.subrange(s.pos as int, (s.pos + (name_of(m) + body(m)).len()) as int) == name_of(m) + body(m),
        fresh(s.options, declared_body(join(s.path, name_of(m)), m)),
    ensures
        run(t, s) == run(t, past(s, (name_of(m) + body(m)).len() as int, declared_body(join(s.path, name_of(m)), m))),
    decreases m, 1nat,
{
    let n = name_of(m);
    let x = n + body(m);
    let p = s.pos;
    let e = (p + n.len()) as nat;
    let d = declared_body(join(s.path, n), m);
    lemma_name_step(t, s, m);
    lemma_piece(t, p as int, x, 0, x.len() as int);
    let ms = m->Object_1;
    let s2 = enter(s, e + 1, n, Mode::Object, Mode::Object);
    assert(x[e - p] == '{');
    assert(t[e as int] == '{');
    assert(n.len() > 0);
    assert((Scan { pos: s.pos, line: s.line, ..s }) == s);
    assert(run(t, s) == run(t, s2));
    let mt = members_text(ms);
    let q = (e + 1 + mt.len()) as nat;
    lemma_piece(t, p as int, x, e + 1 - p, q - p);
    assert(x.subrange(e + 1 - p, q - p) =~= mt);
    lemma_read_members(t, s2, ms);
    let s3 = past(s2, mt.len() as int, d);
    assert(x[q - p] == '}');
    assert(skip(t, q, s3.line, false) == (q, s3.line));
    assert(name_end(t, q) == q);
    lemma_leave_enter(s, e + 1, n, Mode::Object, Mode::Object, q, s3.line, s3.options, Mode::Object);
    assert(run(t, s3) == run(t, leave(s3, q + 1)));
    assert(past(s, x.len() as int, d) == leave(s3, q + 1));
}

proof fn lemma_read_array(t: Seq<char>, s: Scan, m: Member)
    requires
        s.mode == Mode::Object,
        good_member(m),
        m is Array,
        s.pos + (name_of(m) + body(m)).len() <= t.len(),
        t.subrange(s.pos as int, (s.pos + (name_of(m) + body(m)).len()) as int) == name_of(m) + body(m),
        fresh(s.options, declared_body(join(s.path, name_of(m)), m)),
    ensures
        run(t, s) == run(t, past(s, (name_of(m) + body(m)).len() as int, declared_body(join(s.path, name_of(m)), m))),
    decreases m, 1nat,
{
    let n = name_of(m);
    let x = n + body(m);
    let p = s.pos;
    let e = (p + n.len()) as nat;
    let d = declared_body(join(s.path, n), m);
    lemma_name_step(t, s, m);
    lemma_piece(t, p as int, x, 0, x.len() as int);
    let es = m->Array_1;
    let s2 = enter(s, e + 1, n, Mode::Array(0), Mode::Object);
    assert(x[e - p] == '[');
    assert(t[e as int] == '[');
    assert(n.len() > 0);
    assert((Scan { pos: s.pos, line: s.line, ..s }) == s);
    assert(run(t, s) == run(t, s2));
    let et = elements_text(es);
    let q = (e + 1 + et.len()) as nat;
    lemma_piece(t, p as int, x, e + 1 - p, q - p);
    assert(x.subrange(e + 1 - p, q - p) =~= et);
    lemma_read_elements(t, s2, es, 0);
    let s3 = Scan { mode: Mode::Array(count(es)), ..past(s2, et.len() as int, d) };
    assert(x[q - p] == ']');
    assert(skip(t, q, s3.line, false) == (q, s3.line));
    lemma_leave_enter(s, e + 1, n, Mode::Array(0), Mode::Object, q, s3.line, s3.options, Mode::Array(count(es)));
    assert(run(t, s3) == run(t, leave(s3, q + 1)));
    assert(past(s, x.len() as int, d) == leave(s3, q + 1));
}

proof fn lemma_read_members(t: Seq<char>, s: Scan, ms: Members)
    requires
        s.mode == Mode::Object,
        good_members(ms),
        s.pos + members_text(ms).len() <= t.len(),
        t.subrange(s.pos as int, (s.pos + members_text(ms).len()) as int) == members_text(ms),
        fresh(s.options, declared_members(s.path, ms)),
    ensures
        run(t, s) == run(t, past(s, members_text(ms).len() as int, declared_members(s.path, ms))),
    decreases ms, 0nat,
{
    match ms {
        Members::Nil => {
            assert(past(s, 0, Seq::empty()) == s);
        },
        Members::Cons(m, rest) => {
            let a = declared_body(join(s.path, name_of(*m)), *m);
            let b = declared_members(s.path, *rest);
            let x = name_of(*m) + body(*m);
            let y = members_text(*rest);
            assert(members_text(ms) =~= x + y);
            lemma_piece(t, s.pos as int, x + y, 0, x.len() as int);
            lemma_piece(t, s.pos as int, x + y, x.len() as int, (x + y).len() as int);
            assert((x + y).subrange(0, x.len() as int) =~= x);
            assert((x + y).subrange(x.len() as int, (x + y).len() as int) =~= y);
            lemma_fresh_split(s.options, a, b);
            lemma_read_member(t, s, *m);
            let s1 = past(s, x.len() as int, a);
            lemma_read_members(t, s1, *rest);
            lemma_insert_all_append(s.options, a, b);
            assert(past(s1, y.len() as int, b) == past(s, (x + y).len() as int, a + b));
        },
    }
}

proof fn lemma_read_element(t: Seq<char>, s: Scan, e: Member, k: nat)
    requires
        s.mode == Mode::Array(k),
        good_member(e),
        is_container(e),
        s.pos + body(e).len() <= t.len(),
        t.subrange(s.pos as int, (s.pos + body(e).len()) as int) == body(e),
        fresh(s.options, declared_body(join(s.path, decimal(k)), e)),
    ensures
        run(t, s) == run(t, (Scan { mode: Mode::Array(k + 1), ..past(s, body(e).len() as int, declared_body(join(s.path, decimal(k)), e)) })),
    decreases e, 1nat,
{
    let x = body(e);
    let p = s.pos;
    let d = declared_body(join(s.path, decimal(k)), e);
    lemma_piece(t, p as int, x, 0, x.len() as int);
    match e {
        Member::Object(_, ms) => {
            assert(x[0] == '{');
            assert(skip(t, p, s.line, false) == (p, s.line));
            let s2 = enter(s, p + 1, decimal(k), Mode::Object, Mode::Array(k + 1));
            let mt = members_text(ms);
            let q = (p + 1 + mt.len()) as nat;
            lemma_piece(t, p as int, x, 1, q - p);
            assert(x.subrange(1, q - p) =~= mt);
            lemma_read_members(t, s2, ms);
            let s3 = past(s2, mt.len() as int, d);
            assert(x[q - p] == '}');
            assert(skip(t, q, s3.line, false) == (q, s3.line));
            assert(name_end(t, q) == q);
            lemma_leave_enter(s, p + 1, decimal(k), Mode::Object, Mode::Array(k + 1), q, s3.line, s3.options, Mode::Object);
        },
        Member::Array(_, es) => {
            assert(x[0] == '[');
            assert(skip(t, p, s.line, false) == (p, s.line));
            let s2 = enter(s, p + 1, decimal(k), Mode::Array(0), Mode::Array(k + 1));
            let et = elements_text(es);
            let q = (p + 1 + et.len()) as nat;
            lemma_piece(t, p as int, x, 1, q - p);
            assert(x.subrange(1, q - p) =~= et);
            lemma_read_elements(t, s2, es, 0);
            let s3 = Scan { mode: Mode::Array(count(es)), ..past(s2, et.len() as int, d) };
            assert(x[q - p] == ']');
            assert(skip(t, q, s3.line, false) == (q, s3.line));
            lemma_leave_enter(s, p + 1, decimal(k), Mode::Array(0), Mode::Array(k + 1), q, s3.line, s3.options, Mode::Array(count(es)));
        },
        Member::Value(_, _) => {},
    }
}

proof fn lemma_read_elements(t: Seq<char>, s: Scan, es: Members, k: nat)
    requires
        s.mode == Mode::Array(k),
        good_elements(es),
        s.pos + elements_text(es).len() <= t.len(),
        t.subrange(s.pos as int, (s.pos + elements_text(es).len()) as int) == elements_text(es),
        fresh(s.options, declared_elements(s.path, es, k)),
    ensures
        run(t, s) == run(t, (Scan { mode: Mode::Array(k + count(es)), ..past(s, elements_text(es).len() as int, declared_elements(s.path, es, k)) })),
    decreases es, 0nat,
{
    match es {
        Members::Nil => {
            assert(Scan { mode: Mode::Array(k), ..past(s, 0, Seq::empty()) } == s);
        },
        Members::Cons(e, rest) => {
            let a = declared_body(join(s.path, decimal(k)), *e);
            let b = declared_elements(s.path, *rest, k + 1);
            let x = body(*e);
            let y = elements_text(*rest);
            assert(elements_text(es) =~= x + y);
            lemma_piece(t, s.pos as int, x + y, 0, x.len() as int);
            lemma_piece(t, s.pos as int, x + y, x.len() as int, (x + y).len() as int);
            assert((x + y).subrange(0, x.len() as int) =~= x);
            assert((x + y).subrange(x.len() as int, (x + y).len() as int) =~= y);
            lemma_fresh_split(s.options, a, b);
            lemma_read_element(t, s, *e, k);
            let s1 = Scan { mode: Mode::Array(k + 1), ..past(s, x.len() as int, a) };
            lemma_read_elements(t, s1, *rest, k + 1);
            lemma_insert_all_append(s.options, a, b);
            assert(Scan { mode: Mode::Array(k + 1 + count(*rest)), ..past(s1, y.len() as int, b) }
                == Scan { mode: Mode::Array(k + count(es)), ..past(s, (x + y).len() as int, a + b) });
        },
    }
}

/// The `j`th pair repeats a key of `m` or of an earlier pair.
pub open spec fn clash(m: Map<Seq<char>, Seq<char>>, d: Seq<(Seq<char>, Seq<char>)>, j: int) -> bool {
    m.contains_key(d[j].0) || exists|i: int| 0 <= i < j && d[i].0 == d[j].0
}

proof fn lemma_clash_split(o: Map<Seq<char>, Seq<char>>, a: Seq<(Seq<char>, Seq<char>)>, b: Seq<(Seq<char>, Seq<char>)>, j: int)
    requires
        a.len() <= j < a.len() + b.len(),
        fresh(o, (a + b).take(j)),
        clash(o, a + b, j),
    ensures
        fresh(o, a),
        fresh(insert_all(o, a), b.take(j - a.len())),
        clash(insert_all(o, a), b, j - a.len()),
{
    let j2 = j - a.len();
    assert((a + b).take(j) =~= a + b.take(j2));
    lemma_fresh_split(o, a, b.take(j2));
    assert((a + b)[j] == b[j2]);
    lemma_insert_all_domain(o, a, b[j2].0);
    if !o.contains_key(b[j2].0) {
        let i = choose|i: int| 0 <= i < j && (a + b)[i].0 == (a + b)[j].0;
        if i < a.len() {
            assert((a + b)[i] == a[i]);
        } else {
            assert((a + b)[i] == b[i - a.len()]);
        }
    }
}

proof fn lemma_clash_prefix(o: Map<Seq<char>, Seq<char>>, a: Seq<(Seq<char>, Seq<char>)>, b: Seq<(Seq<char>, Seq<char>)>, j: int)
    requires
        0 <= j < a.len(),
        fresh(o, (a + b).take(j)),
        clash(o, a + b, j),
    ensures
        fresh(o, a.take(j)),
        clash(o, a, j),
        (a + b)[j] == a[j],
{
    assert((a + b).take(j) =~= a.take(j));
    if !o.contains_key(a[j].0) {
        let i = choose|i: int| 0 <= i < j && (a + b)[i].0 == (a + b)[j].0;
        assert((a + b)[i] == a[i]);
    }
}

proof fn lemma_clash_value(t: Seq<char>, s: Scan, m: Member, j: int)
    requires
        s.mode == Mode::Object,
        m is Value,
        good_member(m),
        s.pos + (name_of(m) + body(m)).len() <= t.len(),
        t.subrange(s.pos as int, (s.pos + (name_of(m) + body(m)).len()) as int) == name_of(m) + body(m),
        0 <= j < declared_body(join(s.path, name_of(m)), m).len(),
        fresh(s.options, declared_body(join(s.path, name_of(m)), m).take(j)),
        clash(s.options, declared_body(join(s.path, name_of(m)), m), j),
    ensures
        run(t, s) == Err::<Map<Seq<char>, Seq<char>>, Failure>(Failure::RepeatedOption(declared_body(join(s.path, name_of(m)), m)[j].0, s.line + j as nat)),
{
    let n = name_of(m);
    let x = n + body(m);
    let p = s.pos;
    let e = (p + n.len()) as nat;
    lemma_name_step(t, s, m);
    lemma_piece(t, p as int, x, 0, x.len() as int);
    let key = join(s.path, n);
    let d = declared_body(key, m);
    let y = body(m);
    lemma_piece(t, e as int, y, 0, y.len() as int);
    assert(y[0] == ':');
    assert(t[e as int] == ':');
    assert(j == 0);
    assert(d[0].0 == key);
    assert(s.options.contains_key(key));
}

proof fn lemma_clash_member(t: Seq<char>, s: Scan, m: Member, j: int)
    requires
        s.mode == Mode::Object,
        good_member(m),
        s.pos + (name_of(m) + body(m)).len() <= t.len(),
        t.subrange(s.pos as int, (s.pos + (name_of(m) + body(m)).len()) as int) == name_of(m) + body(m),
        0 <= j < declared_body(join(s.path, name_of(m)), m).len(),
        fresh(s.options, declared_body(join(s.path, name_of(m)), m).take(j)),
        clash(s.options, declared_body(join(s.path, name_of(m)), m), j),
    ensures
        run(t, s) == Err::<Map<Seq<char>, Seq<char>>, Failure>(Failure::RepeatedOption(declared_body(join(s.path, name_of(m)), m)[j].0, s.line + j as nat)),
    decreases m, 2nat,
{
    match m {
        Member::Value(_, _) => lemma_clash_value(t, s, m, j),
        Member::Object(_, _) => lemma_clash_object(t, s, m, j),
        Member::Array(_, _) => lemma_clash_array(t, s, m, j),
    }
}

proof fn lemma_clash_object(t: Seq<char>, s: Scan, m: Member, j: int)
    requires
        s.mode == Mode::Object,
        m is Object,
        good_member(m),
        s.pos + (name_of(m) + body(m)).len() <= t.len(),
        t.subrange(s.pos as int, (s.pos + (name_of(m) + body(m)).len()) as int) == name_of(m) + body(m),
        0 <= j < declared_body(join(s.path, name_of(m)), m).len(),
        fresh(s.options, declared_body(join(s.path, name_of(m)), m).take(j)),
        clash(s.options, declared_body(join(s.path, name_of(m)), m), j),
    ensures
        run(t, s) == Err::<Map<Seq<char>, Seq<char>>, Failure>(Failure::RepeatedOption(declared_body(join(s.path, name_of(m)), m)[j].0, s.line + j as nat)),
    decreases m, 1nat,
{
    let n = name_of(m);
    let x = n + body(m);
    let p = s.pos;
    let e = (p + n.len()) as nat;
    lemma_name_step(t, s, m);
    lemma_piece(t, p as int, x, 0, x.len() as int);
    let ms = m->Object_1;
    let s2 = enter(s, e + 1, n, Mode::Object, Mode::Object);
    assert(x[e - p] == '{');
    assert(t[e as int] == '{');
    assert(n.len() > 0);
    assert((Scan { pos: s.pos, line: s.line, ..s }) == s);
    assert(run(t, s) == run(t, s2));
    let mt = members_text(ms);
    let q = (e + 1 + mt.len()) as nat;
    lemma_piece(t, p as int, x, e + 1 - p, q - p);
    assert(x.subrange(e + 1 - p, q - p) =~= mt);
    lemma_clash_members(t, s2, ms, j);
}

proof fn lemma_clash_array(t: Seq<char>, s: Scan, m: Member, j: int)
    requires
        s.mode == Mode::Object,
        m is Array,
        good_member(m),
        s.pos + (name_of(m) + body(m)).len() <= t.len(),
        t.subrange(s.pos as int, (s.pos + (name_of(m) + body(m)).len()) as int) == name_of(m) + body(m),
        0 <= j < declared_body(join(s.path, name_of(m)), m).len(),
        fresh(s.options, declared_body(join(s.path, name_of(m)), m).take(j)),
        clash(s.options, declared_body(join(s.path, name_of(m)), m), j),
    ensures
        run(t, s) == Err::<Map<Seq<char>, Seq<char>>, Failure>(Failure::RepeatedOption(declared_body(join(s.path, name_of(m)), m)[j].0, s.line + j as nat)),
    decreases m, 1nat,
{
    let n = name_of(m);
    let x = n + body(m);
    let p = s.pos;
    let e = (p + n.len()) as nat;
    lemma_name_step(t, s, m);
    lemma_piece(t, p as int, x, 0, x.len() as int);
    let es = m->Array_1;
    let s2 = enter(s, e + 1, n, Mode::Array(0), Mode::Object);
    assert(x[e - p] == '[');
    assert(t[e as int] == '[');
    assert(n.len() > 0);
    assert((Scan { pos: s.pos, line: s.line, ..s }) == s);
    assert(run(t, s) == run(t, s2));
    let et = elements_text(es);
    let q = (e + 1 + et.len()) as nat;
    lemma_piece(t, p as int, x, e + 1 - p, q - p);
    assert(x.subrange(e + 1 - p, q - p) =~= et);
    lemma_clash_elements(t, s2, es, 0, j);
}

proof fn lemma_clash_members(t: Seq<char>, s: Scan, ms: Members, j: int)
    requires
        s.mode == Mode::Object,
        good_members(ms),
        s.pos + members_text(ms).len() <= t.len(),
        t.subrange(s.pos as int, (s.pos + members_text(ms).len()) as int) == members_text(ms),
        0 <= j < declared_members(s.path, ms).len(),
        fresh(s.options, declared_members(s.path, ms).take(j)),
        clash(s.options, declared_members(s.path, ms), j),
    ensures
        run(t, s) == Err::<Map<Seq<char>, Seq<char>>, Failure>(Failure::RepeatedOption(declared_members(s.path, ms)[j].0, s.line + j as nat)),
    decreases ms, 0nat,
{
    match ms {
        Members::Nil => {},
        Members::Cons(m, rest) => {
            let a = declared_body(join(s.path, name_of(*m)), *m);
            let b = declared_members(s.path, *rest);
            let x = name_of(*m) + body(*m);
            let y = members_text(*rest);
            assert(members_text(ms) =~= x + y);
            lemma_piece(t, s.pos as int, x + y, 0, x.len() as int);
            lemma_piece(t, s.pos as int, x + y, x.len() as int, (x + y).len() as int);
            assert((x + y).subrange(0, x.len() as int) =~= x);
            assert((x + y).subrange(x.len() as int, (x + y).len() as int) =~= y);
            if j < a.len() {
                lemma_clash_prefix(s.options, a, b, j);
                lemma_clash_member(t, s, *m, j);
            } else {
                lemma_clash_split(s.options, a, b, j);
                lemma_read_member(t, s, *m);
                let s1 = past(s, x.len() as int, a);
                lemma_clash_members(t, s1, *rest, j - a.len());
                assert((a + b)[j] == b[j - a.len()]);
            }
        },
    }
}

proof fn lemma_clash_element(t: Seq<char>, s: Scan, e: Member, k: nat, j: int)
    requires
        s.mode == Mode::Array(k),
        good_member(e),
        is_container(e),
        s.pos + body(e).len() <= t.len(),
        t.subrange(s.pos as int, (s.pos + body(e).len()) as int) == body(e),
        0 <= j < declared_body(join(s.path, decimal(k)), e).len(),
        fresh(s.options, declared_body(join(s.path, decimal(k)), e).take(j)),
        clash(s.options, declared_body(join(s.path, decimal(k)), e), j),
    ensures
        run(t, s) == Err::<Map<Seq<char>, Seq<char>>, Failure>(Failure::RepeatedOption(declared_body(join(s.path, decimal(k)), e)[j].0, s.line + j as nat)),
    decreases e, 1nat,
{
    let x = body(e);
    let p = s.pos;
    lemma_piece(t, p as int, x, 0, x.len() as int);
    match e {
        Member::Object(_, ms) => {
            assert(x[0] == '{');
            assert(skip(t, p, s.line, false) == (p, s.line));
            let s2 = enter(s, p + 1, decimal(k), Mode::Object, Mode::Array(k + 1));
            let mt = members_text(ms);
            let q = (p + 1 + mt.len()) as nat;
            lemma_piece(t, p as int, x, 1, q - p);
            assert(x.subrange(1, q - p) =~= mt);
            lemma_clash_members(t, s2, ms, j);
        },
        Member::Array(_, es) => {
            assert(x[0] == '[');
            assert(skip(t, p, s.line, false) == (p, s.line));
            let s2 = enter(s, p + 1, decimal(k), Mode::Array(0), Mode::Array(k + 1));
            let et = elements_text(es);
            let q = (p + 1 + et.len()) as nat;
            lemma_piece(t, p as int, x, 1, q - p);
            assert(x.subrange(1, q - p) =~= et);
            lemma_clash_elements(t, s2, es, 0, j);
        },
        Member::Value(_, _) => {},
    }
}

proof fn lemma_clash_elements(t: Seq<char>, s: Scan, es: Members, k: nat, j: int)
    requires
        s.mode == Mode::Array(k),
        good_elements(es),
        s.pos + elements_text(es).len() <= t.len(),
        t.subrange(s.pos as int, (s.pos + elements_text(es).len()) as int) == elements_text(es),
        0 <= j < declared_elements(s.path, es, k).len(),
        fresh(s.options, declared_elements(s.path, es, k).take(j)),
        clash(s.options, declared_elements(s.path, es, k), j),
    ensures
        run(t, s) == Err::<Map<Seq<char>, Seq<char>>, Failure>(Failure::RepeatedOption(declared_elements(s.path, es, k)[j].0, s.line + j as nat)),
    decreases es, 0nat,
{
    match es {
        Members::Nil => {},
        Members::Cons(e, rest) => {
            let a = declared_body(join(s.path, decimal(k)), *e);
            let b = declared_elements(s.path, *rest, k + 1);
            let x = body(*e);
            let y = elements_text(*rest);
            assert(elements_text(es) =~= x + y);
            lemma_piece(t, s.pos as int, x + y, 0, x.len() as int);
            lemma_piece(t, s.pos as int, x + y, x.len() as int, (x + y).len() as int);
            assert((x + y).subrange(0, x.len() as int) =~= x);
            assert((x + y).subrange(x.len() as int, (x + y).len() as int) =~= y);
            if j < a.len() {
                lemma_clash_prefix(s.options, a, b, j);
                lemma_clash_element(t, s, *e, k, j);
            } else {
                lemma_clash_split(s.options, a, b, j);
                lemma_read_element(t, s, *e, k);
                let s1 = Scan { mode: Mode::Array(k + 1), ..past(s, x.len() as int, a) };
                lemma_clash_elements(t, s1, *rest, k + 1, j - a.len());
                assert((a + b)[j] == b[j - a.len()]);
            }
        },
    }
}

/// A written document reads back. Where the values that a well-formed
/// document declares have distinct dotted keys, reading its text succeeds,
/// and the result holds exactly those keys, each with its declared value.
pub proof fn lemma_written_document_reads_back(doc: Members)
    requires
        good_members(doc),
        distinct_keys(declared_members(Seq::empty(), doc)),
    ensures
        parsed(members_text(doc)) is Ok,
        forall|i: int| 0 <= i < declared_members(Seq::empty(), doc).len() ==> {
            let (k, v) = #[trigger] declared_members(Seq::empty(), doc)[i];
            parsed(members_text(doc))->Ok_0.contains_key(k) && parsed(members_text(doc))->Ok_0[k] == v
        },
        forall|k: Seq<char>| #[trigger] parsed(members_text(doc))->Ok_0.contains_key(k) ==> exists|i: int|
            0 <= i < declared_members(Seq::empty(), doc).len() && declared_members(Seq::empty(), doc)[i].0 == k,
{
    let t = members_text(doc);
    let d = declared_members(Seq::empty(), doc);
    let s = start();
    assert(t.subrange(0, t.len() as int) =~= t);
    lemma_read_members(t, s, doc);
    let end = past(s, t.len() as int, d);
    assert(skip(t, end.pos, end.line, false) == (end.pos, end.line));
    assert(run(t, end) == Ok::<Map<Seq<char>, Seq<char>>, Failure>(insert_all(Map::empty(), d)));
    assert forall|i: int| 0 <= i < d.len() implies {
        let (k, v) = #[trigger] d[i];
        parsed(t)->Ok_0.contains_key(k) && parsed(t)->Ok_0[k] == v
    } by {
        lemma_insert_all_value(Map::empty(), d, i);
    }
    assert forall|k: Seq<char>| #[trigger] parsed(t)->Ok_0.contains_key(k) implies exists|i: int|
        0 <= i < d.len() && d[i].0 == k by {
        lemma_insert_all_domain(Map::empty(), d, k);
    }
}

/// A repeated key is reported where it repeats. Where a well-formed document
/// declares the dotted key of its `i`th value again as its `j`th, and no key
/// repeats before that, reading its text fails with `RepeatedOption` naming
/// that key and the line of the second declaration. Written documents give
/// each value one line, so the `j`th value stands on line `j`, counted from 0.
pub proof fn lemma_repeated_key_is_reported(doc: Members, i: int, j: int)
    requires
        good_members(doc),
        0 <= i < j < declared_members(Seq::empty(), doc).len(),
        declared_members(Seq::empty(), doc)[i].0 == declared_members(Seq::empty(), doc)[j].0,
        distinct_keys(declared_members(Seq::empty(), doc).take(j)),
    ensures
        parsed(members_text(doc)) == Err::<Map<Seq<char>, Seq<char>>, Failure>(
            Failure::RepeatedOption(declared_members(Seq::empty(), doc)[j].0, j as nat),
        ),
{
    let t = members_text(doc);
    let d = declared_members(Seq::empty(), doc);
    assert(t.subrange(0, t.len() as int) =~= t);
    assert(clash(Map::empty(), d, j));
    lemma_clash_members(t, start(), doc, j);
}

proof fn lemma_trim_shift(t: Seq<char>, q: int, v: Seq<char>, a: int, b: int)
    requires
        0 <= q,
        q + v.len() <= t.len(),
        t.subrange(q, q + v.len()) == v,
        0 <= a <= b <= v.len(),
    ensures
        trim_lo(t, q + a, q + b) == q + trim_lo(v, a, b),
        trim_hi(t, q + a, q + b) == q + trim_hi(v, a, b),
    decreases b - a,
{
    lemma_piece(t, q, v, 0, v.len() as int);
    if a < b {
        assert(t[q + a] == v[a]);
        assert(t[q + b - 1] == v[b - 1]);
        lemma_trim_shift(t, q, v, a + 1, b);
        lemma_trim_shift(t, q, v, a, b - 1);
    }
}

proof fn lemma_skip_comment(t: Seq<char>, i: nat, g: nat, line: nat)
    requires
        i <= g < t.len(),
        t[g as int] == '\n',
        forall|j: int| i <= j < g ==> #[trigger] t[j] != '\n',
    ensures
        skip(t, i, line, true) == skip(t, g + 1, line + 1, false),
    decreases g - i,
{
    if i < g {
        lemma_skip_comment(t, i + 1, g, line);
    }
}

proof fn lemma_trimmed_at(t: Seq<char>, q: int, v: Seq<char>)
    requires
        0 <= q,
        q + v.len() <= t.len(),
        t.subrange(q, q + v.len()) == v,
    ensures
        trimmed(t, q, q + v.len()) == trimmed(v, 0, v.len() as int),
{
    lemma_trim_shift(t, q, v, 0, v.len() as int);
    let lo = trim_lo(v, 0, v.len() as int);
    lemma_trim_bounds(v, 0, v.len() as int);
    lemma_trim_bounds(v, lo, v.len() as int);
    lemma_trim_shift(t, q, v, lo, v.len() as int);
    lemma_piece(t, q, v, lo, trim_hi(v, lo, v.len() as int));
}

/// The scanner reads on from any two states that skip to the same place.
proof fn lemma_run_skip(t: Seq<char>, s1: Scan, s2: Scan)
    requires
        skip(t, s1.pos, s1.line, false) == skip(t, s2.pos, s2.line, false),
        s1.path == s2.path,
        s1.mode == s2.mode,
        s1.scopes == s2.scopes,
        s1.options == s2.options,
    ensures
        run(t, s1) == run(t, s2),
{
    let (p, l) = skip(t, s1.pos, s1.line, false);
    assert((Scan { pos: p, line: l, ..s1 }) == (Scan { pos: p, line: l, ..s2 }));
}

/// A trailing comment is not part of a value. Reading `name: value # comment`
/// and its newline stores under the member's key the value trimmed, without
/// anything of the comment, and goes on at the next line as if the comment
/// were not there.
pub proof fn lemma_trailing_comment_dropped(t: Seq<char>, s: Scan, n: Seq<char>, v: Seq<char>, c: Seq<char>)
    requires
        s.mode == Mode::Object,
        good_name(n),
        forall|i: int| 0 <= i < v.len() ==> #[trigger] v[i] != '#' && v[i] != '\n',
        forall|i: int| 0 <= i < c.len() ==> #[trigger] c[i] != '\n',
        s.pos + (n + seq![':'] + v + seq!['#'] + c + seq!['\n']).len() <= t.len(),
        t.subrange(s.pos as int, (s.pos + (n + seq![':'] + v + seq!['#'] + c + seq!['\n']).len()) as int)
            == n + seq![':'] + v + seq!['#'] + c + seq!['\n'],
        !s.options.contains_key(join(s.path, n)),
    ensures
        run(t, s) == run(t, (Scan {
            pos: (s.pos + (n + seq![':'] + v + seq!['#'] + c + seq!['\n']).len()) as nat,
            line: s.line + 1,
            options: s.options.insert(join(s.path, n), trimmed(v, 0, v.len() as int)),
            ..s
        })),
{
    let x = n + seq![':'] + v + seq!['#'] + c + seq!['\n'];
    let p = s.pos;
    let e = (p + n.len()) as nat;
    let q = e + 1;
    let f = (q + v.len()) as nat;
    let g = (f + 1 + c.len()) as nat;
    lemma_piece(t, p as int, x, 0, x.len() as int);
    assert(x[0] == n[0]);
    assert(skip(t, p, s.line, false) == (p, s.line));
    assert forall|j: int| p <= j < e implies !ends_name(#[trigger] t[j]) by {
        assert(x[j - p] == n[j - p]);
    }
    assert(x[e - p] == ':');
    lemma_name_reads(t, p, e);
    assert(x[e - p - 1] == n.last());
    lemma_trim_clean(t, p as int, e as int);
    lemma_piece(t, p as int, x, 0, n.len() as int);
    assert(x.subrange(0, n.len() as int) =~= n);
    assert forall|j: int| q <= j < f implies #[trigger] t[j] != '#' && t[j] != '\n' by {
        assert(x[j - p] == v[j - q]);
    }
    assert(x[f - p] == '#');
    lemma_value_reads(t, q, f);
    lemma_piece(t, p as int, x, q - p, f - p);
    assert(x.subrange(q - p, f - p) =~= v);
    lemma_trimmed_at(t, q as int, v);
    assert(trimmed(t, q as int, f as int) == trimmed(v, 0, v.len() as int));
    let key = join(s.path, n);
    let options = s.options.insert(key, trimmed(v, 0, v.len() as int));
    let s1 = Scan { pos: f, options, ..s };
    assert(run(t, s) == run(t, s1));
    assert forall|j: int| f + 1 <= j < g implies #[trigger] t[j] != '\n' by {
        assert(x[j - p] == c[j - f - 1]);
    }
    assert(x[g - p] == '\n');
    lemma_skip_comment(t, f + 1, g, s.line);
    let s2 = Scan { pos: g + 1, line: s.line + 1, options, ..s };
    lemma_run_skip(t, s1, s2);
}

} // verus!
