//! The three transfer records and their JSON schemas: an object carrying
//! exactly the record's fields, each once, in any order, each value of the
//! field's type. The encoders write the canonical form — the fields in
//! declared order, no whitespace — and the decoders, which also accept
//! reordered fields and whitespace between tokens, are proved inverse to
//! them.

use crate::json::{
    is_digit, is_ws, spec_bool_lit, spec_dec, spec_parse_bool, spec_parse_i32, spec_parse_string,
    spec_quote, spec_skip_ws, encode_quoted, parse_bool, parse_i32, parse_string, push_bool,
    push_i32_dec, lemma_parse_quoted, lemma_parse_dec, lemma_parse_bool_lit,
    lemma_parse_string_bounds, lemma_parse_i32_bounds, lemma_skip_ws_bounds,
    lemma_subrange_index, lemma_udec_props, spec_udec, QUOTE, COLON, COMMA, LBRACE, RBRACE,
    MINUS,
};
use vstd::prelude::*;

verus! {

// ---------------------------------------------------------------------------
// Field keys
// ---------------------------------------------------------------------------

/// The bytes of the key `id`.
pub open spec fn key_id() -> Seq<u8> {
    seq![0x69u8, 0x64]
}

/// The bytes of the key `userId`.
pub open spec fn key_user_id() -> Seq<u8> {
    seq![0x75u8, 0x73, 0x65, 0x72, 0x49, 0x64]
}

/// The bytes of the key `title`.
pub open spec fn key_title() -> Seq<u8> {
    seq![0x74u8, 0x69, 0x74, 0x6c, 0x65]
}

/// The bytes of the key `completed`.
pub open spec fn key_completed() -> Seq<u8> {
    seq![0x63u8, 0x6f, 0x6d, 0x70, 0x6c, 0x65, 0x74, 0x65, 0x64]
}

/// The bytes of the key `body`.
pub open spec fn key_body() -> Seq<u8> {
    seq![0x62u8, 0x6f, 0x64, 0x79]
}

fn key_id_vec() -> (r: Vec<u8>)
    ensures
        r@ == key_id(),
{
    let mut v: Vec<u8> = Vec::new();
    v.push(0x69);
    v.push(0x64);
    assert(v@ =~= key_id());
    v
}

fn key_user_id_vec() -> (r: Vec<u8>)
    ensures
        r@ == key_user_id(),
{
    let mut v: Vec<u8> = Vec::new();
    v.push(0x75);
    v.push(0x73);
    v.push(0x65);
    v.push(0x72);
    v.push(0x49);
    v.push(0x64);
    assert(v@ =~= key_user_id());
    v
}

fn key_title_vec() -> (r: Vec<u8>)
    ensures
        r@ == key_title(),
{
    let mut v: Vec<u8> = Vec::new();
    v.push(0x74);
    v.push(0x69);
    v.push(0x74);
    v.push(0x6c);
    v.push(0x65);
    assert(v@ =~= key_title());
    v
}

fn key_completed_vec() -> (r: Vec<u8>)
    ensures
        r@ == key_completed(),
{
    let mut v: Vec<u8> = Vec::new();
    v.push(0x63);
    v.push(0x6f);
    v.push(0x6d);
    v.push(0x70);
    v.push(0x6c);
    v.push(0x65);
    v.push(0x74);
    v.push(0x65);
    v.push(0x64);
    assert(v@ =~= key_completed());
    v
}

fn key_body_vec() -> (r: Vec<u8>)
    ensures
        r@ == key_body(),
{
    let mut v: Vec<u8> = Vec::new();
    v.push(0x62);
    v.push(0x6f);
    v.push(0x64);
    v.push(0x79);
    assert(v@ =~= key_body());
    v
}

fn bytes_eq(a: &Vec<u8>, b: &Vec<u8>) -> (r: bool)
    ensures
        r == (a@ == b@),
{
    if a.len() != b.len() {
        assert(a@ != b@);
        return false;
    }
    let mut i: usize = 0;
    while i < a.len()
        invariant
            i <= a.len(),
            a.len() == b.len(),
            forall|k: int| 0 <= k < i ==> a@[k] == b@[k],
        decreases a.len() - i,
    {
        if a[i] != b[i] {
            return false;
        }
        i = i + 1;
    }
    assert(a@ =~= b@);
    true
}

// ---------------------------------------------------------------------------
// One object member: `"key" : value`
// ---------------------------------------------------------------------------

/// A separator byte with whitespace allowed before it; the position just
/// past it on a match.
pub open spec fn spec_expect(s: Seq<u8>, i: int, b: u8) -> Option<int> {
    let j = spec_skip_ws(s, i);
    if 0 <= j < s.len() && s[j] == b {
        Some(j + 1)
    } else {
        None
    }
}

fn expect_byte(buf: &Vec<u8>, pos: usize, b: u8) -> (r: Option<usize>)
    requires
        pos <= buf.len(),
    ensures
        match r {
            Some(p) => spec_expect(buf@, pos as int, b) == Some(p as int) && p <= buf.len(),
            None => spec_expect(buf@, pos as int, b) is None,
        },
{
    let j = crate::json::skip_ws_at(buf, pos);
    if j < buf.len() && buf[j] == b {
        Some(j + 1)
    } else {
        None
    }
}

/// The key and colon of a member, whitespace allowed around them; the
/// position where the value starts on a match.
pub open spec fn spec_member_prefix(s: Seq<u8>, i: int, key: Seq<u8>) -> Option<int> {
    match spec_parse_string(s, spec_skip_ws(s, i)) {
        Some((k, i2)) => if k == key {
            match spec_expect(s, i2, COLON) {
                Some(i3) => Some(spec_skip_ws(s, i3)),
                None => None,
            }
        } else {
            None
        },
        None => None,
    }
}

fn parse_member_prefix(buf: &Vec<u8>, pos: usize, key: &Vec<u8>) -> (r: Option<usize>)
    requires
        pos <= buf.len(),
    ensures
        match r {
            Some(p) => spec_member_prefix(buf@, pos as int, key@) == Some(p as int) && p
                <= buf.len(),
            None => spec_member_prefix(buf@, pos as int, key@) is None,
        },
{
    let j = crate::json::skip_ws_at(buf, pos);
    match parse_string(buf, j) {
        Some((k, i2)) => {
            if !bytes_eq(&k, key) {
                return None;
            }
            match expect_byte(buf, i2, COLON) {
                Some(i3) => Some(crate::json::skip_ws_at(buf, i3)),
                None => None,
            }
        },
        None => None,
    }
}

/// An `i32` member.
pub open spec fn spec_member_i32(s: Seq<u8>, i: int, key: Seq<u8>) -> Option<(i32, int)> {
    match spec_member_prefix(s, i, key) {
        Some(p) => spec_parse_i32(s, p),
        None => None,
    }
}

fn parse_member_i32(buf: &Vec<u8>, pos: usize, key: &Vec<u8>) -> (r: Option<(i32, usize)>)
    requires
        pos <= buf.len(),
    ensures
        match r {
            Some(p) => spec_member_i32(buf@, pos as int, key@) == Some::<(i32, int)>((
                p.0,
                p.1 as int,
            )) && p.1 <= buf.len(),
            None => spec_member_i32(buf@, pos as int, key@) is None,
        },
{
    match parse_member_prefix(buf, pos, key) {
        Some(p) => parse_i32(buf, p),
        None => None,
    }
}

/// A string member.
pub open spec fn spec_member_str(s: Seq<u8>, i: int, key: Seq<u8>) -> Option<(Seq<u8>, int)> {
    match spec_member_prefix(s, i, key) {
        Some(p) => spec_parse_string(s, p),
        None => None,
    }
}

fn parse_member_str(buf: &Vec<u8>, pos: usize, key: &Vec<u8>) -> (r: Option<(Vec<u8>, usize)>)
    requires
        pos <= buf.len(),
    ensures
        match r {
            Some(p) => spec_member_str(buf@, pos as int, key@) == Some::<(Seq<u8>, int)>((
                p.0@,
                p.1 as int,
            )) && p.1 <= buf.len(),
            None => spec_member_str(buf@, pos as int, key@) is None,
        },
{
    match parse_member_prefix(buf, pos, key) {
        Some(p) => parse_string(buf, p),
        None => None,
    }
}

/// A boolean member.
pub open spec fn spec_member_bool(s: Seq<u8>, i: int, key: Seq<u8>) -> Option<(bool, int)> {
    match spec_member_prefix(s, i, key) {
        Some(p) => spec_parse_bool(s, p),
        None => None,
    }
}

fn parse_member_bool(buf: &Vec<u8>, pos: usize, key: &Vec<u8>) -> (r: Option<(bool, usize)>)
    requires
        pos <= buf.len(),
    ensures
        match r {
            Some(p) => spec_member_bool(buf@, pos as int, key@) == Some::<(bool, int)>((
                p.0,
                p.1 as int,
            )) && p.1 <= buf.len(),
            None => spec_member_bool(buf@, pos as int, key@) is None,
        },
{
    match parse_member_prefix(buf, pos, key) {
        Some(p) => parse_bool(buf, p),
        None => None,
    }
}

// ---------------------------------------------------------------------------
// Canonical encodings of one member
// ---------------------------------------------------------------------------

/// Canonical bytes of an `i32` member.
pub open spec fn spec_member_enc_i32(key: Seq<u8>, n: i32) -> Seq<u8> {
    spec_quote(key) + seq![COLON] + spec_dec(n as int)
}

/// Canonical bytes of a string member.
pub open spec fn spec_member_enc_str(key: Seq<u8>, v: Seq<u8>) -> Seq<u8> {
    spec_quote(key) + seq![COLON] + spec_quote(v)
}

/// Canonical bytes of a boolean member.
pub open spec fn spec_member_enc_bool(key: Seq<u8>, b: bool) -> Seq<u8> {
    spec_quote(key) + seq![COLON] + spec_bool_lit(b)
}

/// Appends `"key":` followed by nothing; the value follows separately.
fn push_member_key(out: &mut Vec<u8>, key: &Vec<u8>)
    ensures
        final(out)@ == old(out)@ + spec_quote(key@) + seq![COLON],
{
    encode_quoted(out, key);
    out.push(COLON);
    assert(out@ =~= old(out)@ + spec_quote(key@) + seq![COLON]);
}


// ---------------------------------------------------------------------------
// Members advance: bounds on the positions they return
// ---------------------------------------------------------------------------

pub proof fn lemma_member_prefix_bounds(s: Seq<u8>, i: int, key: Seq<u8>)
    ensures
        spec_member_prefix(s, i, key) matches Some(p) ==> i < p <= s.len(),
{
    let a = spec_skip_ws(s, i);
    lemma_parse_string_bounds(s, a);
    match spec_parse_string(s, a) {
        Some((k, i2)) => {
            // the string parse succeeded, so `a` is a real position
            assert(0 <= a < s.len());
            if i < 0 || i > s.len() {
                assert(a == i);
            }
            lemma_skip_ws_bounds(s, i);
            let w = spec_skip_ws(s, i2);
            lemma_skip_ws_bounds(s, i2);
            if 0 <= w < s.len() && s[w] == COLON {
                lemma_skip_ws_bounds(s, w + 1);
            }
        },
        None => {},
    }
}

pub proof fn lemma_member_i32_bounds(s: Seq<u8>, i: int, key: Seq<u8>)
    ensures
        spec_member_i32(s, i, key) matches Some(p) ==> i < p.1 <= s.len(),
{
    lemma_member_prefix_bounds(s, i, key);
    match spec_member_prefix(s, i, key) {
        Some(p) => {
            lemma_parse_i32_bounds(s, p);
        },
        None => {},
    }
}

pub proof fn lemma_member_str_bounds(s: Seq<u8>, i: int, key: Seq<u8>)
    ensures
        spec_member_str(s, i, key) matches Some(p) ==> i < p.1 <= s.len(),
{
    lemma_member_prefix_bounds(s, i, key);
    match spec_member_prefix(s, i, key) {
        Some(p) => {
            lemma_parse_string_bounds(s, p);
        },
        None => {},
    }
}

pub proof fn lemma_member_bool_bounds(s: Seq<u8>, i: int, key: Seq<u8>)
    ensures
        spec_member_bool(s, i, key) matches Some(p) ==> i < p.1 <= s.len(),
{
    lemma_member_prefix_bounds(s, i, key);
}

// ---------------------------------------------------------------------------
// Canonical members parse back to their values
// ---------------------------------------------------------------------------

/// A canonical `"key":` prefix parses to the position right after the colon,
/// where a value must begin.
proof fn lemma_member_prefix_rt(s: Seq<u8>, i: int, key: Seq<u8>)
    requires
        0 <= i,
        i + spec_quote(key).len() + 1 < s.len(),
        s.subrange(i, i + spec_quote(key).len() + 1) == spec_quote(key) + seq![COLON],
        !is_ws(s[i + spec_quote(key).len() + 1]),
    ensures
        spec_member_prefix(s, i, key) == Some(i + spec_quote(key).len() + 1),
{
    let ql = spec_quote(key).len() as int;
    let t = spec_quote(key) + seq![COLON];
    lemma_subrange_index(s, i, t);
    assert(s[i] == t[0]);
    assert(t[0] == spec_quote(key)[0]);
    assert(spec_quote(key)[0] == QUOTE);
    assert(spec_skip_ws(s, i) == i);
    assert(s.subrange(i, i + ql) =~= spec_quote(key)) by {
        assert forall|m: int| 0 <= m < ql implies s.subrange(i, i + ql)[m] == spec_quote(key)[m]
        by {
            assert(s.subrange(i, i + ql)[m] == s[i + m]);
            assert(s[i + m] == t[m]);
        }
    }
    lemma_parse_quoted(s, key, i);
    assert(s[i + ql] == t[ql]);
    assert(t[ql] == COLON);
    assert(spec_skip_ws(s, i + ql) == i + ql);
    assert(spec_expect(s, i + ql, COLON) == Some(i + ql + 1));
    assert(spec_skip_ws(s, i + ql + 1) == i + ql + 1);
}

/// A canonical `i32` member followed by a non-digit parses back to its value.
proof fn lemma_member_i32_rt(s: Seq<u8>, i: int, key: Seq<u8>, n: i32)
    requires
        0 <= i,
        i + spec_member_enc_i32(key, n).len() <= s.len(),
        s.subrange(i, i + spec_member_enc_i32(key, n).len()) == spec_member_enc_i32(key, n),
        i + spec_member_enc_i32(key, n).len() == s.len() || !is_digit(
            s[i + spec_member_enc_i32(key, n).len()],
        ),
    ensures
        spec_member_i32(s, i, key) == Some::<(i32, int)>((
            n,
            i + spec_member_enc_i32(key, n).len(),
        )),
{
    let m = spec_member_enc_i32(key, n);
    let ql = spec_quote(key).len() as int;
    let pl = ql + 1;
    let d = spec_dec(n as int);
    lemma_udec_props((if n < 0 { -(n as int) } else { n as int }) as nat);
    assert(d.len() >= 1);
    assert(m.len() == pl + d.len());
    lemma_subrange_index(s, i, m);
    assert(s.subrange(i, i + pl) =~= spec_quote(key) + seq![COLON]) by {
        assert forall|k: int| 0 <= k < pl implies s.subrange(i, i + pl)[k] == (spec_quote(key)
            + seq![COLON])[k] by {
            assert(s.subrange(i, i + pl)[k] == s[i + k]);
            assert(s[i + k] == m[k]);
        }
    }
    assert(s[i + pl] == m[pl]);
    assert(m[pl] == d[0int]);
    assert(!is_ws(d[0])) by {
        if n < 0 {
            assert(d[0] == MINUS);
        } else {
            assert(d[0] == spec_udec(n as nat)[0]);
            assert(is_digit(d[0]));
        }
    }
    lemma_member_prefix_rt(s, i, key);
    assert(s.subrange(i + pl, i + pl + d.len()) =~= d) by {
        assert forall|k: int| 0 <= k < d.len() implies s.subrange(i + pl, i + pl + d.len())[k]
            == d[k] by {
            assert(s.subrange(i + pl, i + pl + d.len())[k] == s[i + pl + k]);
            assert(s[i + (pl + k)] == m[pl + k]);
        }
    }
    lemma_parse_dec(s, n as int, i + pl);
}

/// A canonical string member parses back to its content.
proof fn lemma_member_str_rt(s: Seq<u8>, i: int, key: Seq<u8>, v: Seq<u8>)
    requires
        0 <= i,
        i + spec_member_enc_str(key, v).len() <= s.len(),
        s.subrange(i, i + spec_member_enc_str(key, v).len()) == spec_member_enc_str(key, v),
    ensures
        spec_member_str(s, i, key) == Some::<(Seq<u8>, int)>((
            v,
            i + spec_member_enc_str(key, v).len(),
        )),
{
    let m = spec_member_enc_str(key, v);
    let ql = spec_quote(key).len() as int;
    let pl = ql + 1;
    let q = spec_quote(v);
    assert(m.len() == pl + q.len());
    lemma_subrange_index(s, i, m);
    assert(s.subrange(i, i + pl) =~= spec_quote(key) + seq![COLON]) by {
        assert forall|k: int| 0 <= k < pl implies s.subrange(i, i + pl)[k] == (spec_quote(key)
            + seq![COLON])[k] by {
            assert(s.subrange(i, i + pl)[k] == s[i + k]);
            assert(s[i + k] == m[k]);
        }
    }
    assert(s[i + pl] == m[pl]);
    assert(m[pl] == q[0int]);
    assert(q[0] == QUOTE);
    lemma_member_prefix_rt(s, i, key);
    assert(s.subrange(i + pl, i + pl + q.len()) =~= q) by {
        assert forall|k: int| 0 <= k < q.len() implies s.subrange(i + pl, i + pl + q.len())[k]
            == q[k] by {
            assert(s.subrange(i + pl, i + pl + q.len())[k] == s[i + pl + k]);
            assert(s[i + (pl + k)] == m[pl + k]);
        }
    }
    lemma_parse_quoted(s, v, i + pl);
}

/// A canonical boolean member parses back to its value.
proof fn lemma_member_bool_rt(s: Seq<u8>, i: int, key: Seq<u8>, b: bool)
    requires
        0 <= i,
        i + spec_member_enc_bool(key, b).len() <= s.len(),
        s.subrange(i, i + spec_member_enc_bool(key, b).len()) == spec_member_enc_bool(key, b),
    ensures
        spec_member_bool(s, i, key) == Some::<(bool, int)>((
            b,
            i + spec_member_enc_bool(key, b).len(),
        )),
{
    let m = spec_member_enc_bool(key, b);
    let ql = spec_quote(key).len() as int;
    let pl = ql + 1;
    let lit = spec_bool_lit(b);
    assert(m.len() == pl + lit.len());
    lemma_subrange_index(s, i, m);
    assert(s.subrange(i, i + pl) =~= spec_quote(key) + seq![COLON]) by {
        assert forall|k: int| 0 <= k < pl implies s.subrange(i, i + pl)[k] == (spec_quote(key)
            + seq![COLON])[k] by {
            assert(s.subrange(i, i + pl)[k] == s[i + k]);
            assert(s[i + k] == m[k]);
        }
    }
    assert(s[i + pl] == m[pl]);
    assert(m[pl] == lit[0int]);
    assert(!is_ws(lit[0]));
    lemma_member_prefix_rt(s, i, key);
    assert(s.subrange(i + pl, i + pl + lit.len()) =~= lit) by {
        assert forall|k: int| 0 <= k < lit.len() implies s.subrange(i + pl, i + pl + lit.len())[k]
            == lit[k] by {
            assert(s.subrange(i + pl, i + pl + lit.len())[k] == s[i + pl + k]);
            assert(s[i + (pl + k)] == m[pl + k]);
        }
    }
    lemma_parse_bool_lit(s, b, i + pl);
}

// ---------------------------------------------------------------------------
// Task
// ---------------------------------------------------------------------------

/// A to-do item as the remote service returns it.
#[derive(Debug, Clone, PartialEq, Eq)]
pub struct Task {
    pub id: i32,
    pub user_id: i32,
    pub title: Vec<u8>,
    pub completed: bool,
}

/// Mathematical view of a `Task`.
pub struct TaskV {
    pub id: i32,
    pub user_id: i32,
    pub title: Seq<u8>,
    pub completed: bool,
}

impl View for Task {
    type V = TaskV;

    open spec fn view(&self) -> TaskV {
        TaskV { id: self.id, user_id: self.user_id, title: self.title@, completed: self.completed }
    }
}

/// Canonical JSON bytes of a `Task`.
pub open spec fn spec_encode_task(t: TaskV) -> Seq<u8> {
    seq![LBRACE] + spec_member_enc_i32(key_id(), t.id) + seq![COMMA] + spec_member_enc_i32(
        key_user_id(),
        t.user_id,
    ) + seq![COMMA] + spec_member_enc_str(key_title(), t.title) + seq![COMMA]
        + spec_member_enc_bool(key_completed(), t.completed) + seq![RBRACE]
}

/// A `Task` while its members are read: the fields seen so far.
pub struct TaskAcc {
    pub id: Option<i32>,
    pub user_id: Option<i32>,
    pub title: Option<Seq<u8>>,
    pub completed: Option<bool>,
}

/// One member at position `i`, then the rest of a `Task` object. A member
/// is any field of the schema not seen yet, so the fields may come in any
/// order; a repeated or unknown key is rejected.
pub open spec fn spec_task_members(s: Seq<u8>, i: int, acc: TaskAcc) -> Option<TaskV>
    decreases s.len() - i, 1int,
{
    if acc.id is None && spec_member_i32(s, i, key_id()) is Some {
        match spec_member_i32(s, i, key_id()) {
            Some((n, j)) => {
                proof {
                    lemma_member_i32_bounds(s, i, key_id());
                }
                spec_task_after(s, j, TaskAcc { id: Some(n), ..acc })
            },
            None => None,
        }
    } else if acc.user_id is None && spec_member_i32(s, i, key_user_id()) is Some {
        match spec_member_i32(s, i, key_user_id()) {
            Some((n, j)) => {
                proof {
                    lemma_member_i32_bounds(s, i, key_user_id());
                }
                spec_task_after(s, j, TaskAcc { user_id: Some(n), ..acc })
            },
            None => None,
        }
    } else if acc.title is None && spec_member_str(s, i, key_title()) is Some {
        match spec_member_str(s, i, key_title()) {
            Some((v, j)) => {
                proof {
                    lemma_member_str_bounds(s, i, key_title());
                }
                spec_task_after(s, j, TaskAcc { title: Some(v), ..acc })
            },
            None => None,
        }
    } else if acc.completed is None && spec_member_bool(s, i, key_completed()) is Some {
        match spec_member_bool(s, i, key_completed()) {
            Some((b, j)) => {
                proof {
                    lemma_member_bool_bounds(s, i, key_completed());
                }
                spec_task_after(s, j, TaskAcc { completed: Some(b), ..acc })
            },
            None => None,
        }
    } else {
        None
    }
}

/// After a member of a `Task` object: a comma and another member, or the
/// closing brace, trailing whitespace, and the end of the input — at which
/// point every field must have been seen.
pub open spec fn spec_task_after(s: Seq<u8>, j: int, acc: TaskAcc) -> Option<TaskV>
    decreases s.len() - j, 0int,
{
    let w = spec_skip_ws(s, j);
    if 0 <= w < s.len() && s[w] == COMMA {
        proof {
            if 0 <= j <= s.len() {
                lemma_skip_ws_bounds(s, j);
            }
        }
        spec_task_members(s, w + 1, acc)
    } else if 0 <= w < s.len() && s[w] == RBRACE && spec_skip_ws(s, w + 1) == s.len() {
        match (acc.id, acc.user_id, acc.title, acc.completed) {
            (Some(id), Some(uid), Some(title), Some(c)) => Some(
                TaskV { id, user_id: uid, title, completed: c },
            ),
            _ => None,
        }
    } else {
        None
    }
}

/// The `Task` a byte string denotes: an object with exactly the fields
/// `id`, `userId`, `title`, `completed`, each exactly once, in any order,
/// whitespace allowed between tokens, nothing but whitespace after it.
pub open spec fn spec_parse_task(s: Seq<u8>) -> Option<TaskV> {
    match spec_expect(s, 0, LBRACE) {
        Some(p0) => spec_task_members(
            s,
            p0,
            TaskAcc { id: None, user_id: None, title: None, completed: None },
        ),
        None => None,
    }
}

/// The fields gathered by the executable decoder, as a `TaskAcc`.
pub open spec fn task_acc(
    id: Option<i32>,
    user_id: Option<i32>,
    title: Option<Vec<u8>>,
    completed: Option<bool>,
) -> TaskAcc {
    TaskAcc {
        id,
        user_id,
        title: match title {
            Some(v) => Some(v@),
            None => None,
        },
        completed,
    }
}

/// Encodes a `Task` to its canonical JSON bytes.
pub fn encode_task(t: &Task) -> (r: Vec<u8>)
    ensures
        r@ == spec_encode_task(t@),
{
    let mut out: Vec<u8> = Vec::new();
    out.push(LBRACE);
    let k1 = key_id_vec();
    push_member_key(&mut out, &k1);
    push_i32_dec(&mut out, t.id);
    assert(out@ =~= seq![LBRACE] + spec_member_enc_i32(key_id(), t@.id));
    let ghost o1 = out@;
    out.push(COMMA);
    let k2 = key_user_id_vec();
    push_member_key(&mut out, &k2);
    push_i32_dec(&mut out, t.user_id);
    assert(out@ =~= o1 + seq![COMMA] + spec_member_enc_i32(key_user_id(), t@.user_id));
    let ghost o2 = out@;
    out.push(COMMA);
    let k3 = key_title_vec();
    push_member_key(&mut out, &k3);
    encode_quoted(&mut out, &t.title);
    assert(out@ =~= o2 + seq![COMMA] + spec_member_enc_str(key_title(), t@.title));
    let ghost o3 = out@;
    out.push(COMMA);
    let k4 = key_completed_vec();
    push_member_key(&mut out, &k4);
    push_bool(&mut out, t.completed);
    assert(out@ =~= o3 + seq![COMMA] + spec_member_enc_bool(key_completed(), t@.completed));
    out.push(RBRACE);
    assert(out@ =~= spec_encode_task(t@));
    out
}

/// Decodes a `Task` from JSON bytes. The object must carry the schema's
/// fields, each exactly once, in any order; whitespace may stand between
/// tokens. A missing or repeated field, an unknown key, a value of the
/// wrong type, malformed JSON or trailing content is rejected, never
/// papered over with a default.
pub fn decode_task(buf: &Vec<u8>) -> (r: Option<Task>)
    ensures
        match r {
            Some(t) => spec_parse_task(buf@) == Some(t@),
            None => spec_parse_task(buf@) is None,
        },
{
    let p0 = match expect_byte(buf, 0, LBRACE) {
        Some(p) => p,
        None => {
            return None;
        },
    };
    let k_id = key_id_vec();
    let k_uid = key_user_id_vec();
    let k_title = key_title_vec();
    let k_comp = key_completed_vec();
    let mut acc_id: Option<i32> = None;
    let mut acc_uid: Option<i32> = None;
    let mut acc_title: Option<Vec<u8>> = None;
    let mut acc_comp: Option<bool> = None;
    let mut pos: usize = p0;
    loop
        invariant
            pos <= buf.len(),
            k_id@ == key_id(),
            k_uid@ == key_user_id(),
            k_title@ == key_title(),
            k_comp@ == key_completed(),
            spec_parse_task(buf@) == spec_task_members(
                buf@,
                pos as int,
                task_acc(acc_id, acc_uid, acc_title, acc_comp),
            ),
        decreases buf.len() - pos,
    {
        let ghost i0 = pos as int;
        let ghost acc0 = task_acc(acc_id, acc_uid, acc_title, acc_comp);
        let mut stepped: Option<usize> = None;
        if acc_id.is_none() {
            match parse_member_i32(buf, pos, &k_id) {
                Some((n, j)) => {
                    proof {
                        lemma_member_i32_bounds(buf@, i0, key_id());
                    }
                    acc_id = Some(n);
                    stepped = Some(j);
                },
                None => {},
            }
        }
        if stepped.is_none() && acc_uid.is_none() {
            match parse_member_i32(buf, pos, &k_uid) {
                Some((n, j)) => {
                    proof {
                        lemma_member_i32_bounds(buf@, i0, key_user_id());
                    }
                    acc_uid = Some(n);
                    stepped = Some(j);
                },
                None => {},
            }
        }
        if stepped.is_none() && acc_title.is_none() {
            match parse_member_str(buf, pos, &k_title) {
                Some((v, j)) => {
                    proof {
                        lemma_member_str_bounds(buf@, i0, key_title());
                    }
                    acc_title = Some(v);
                    stepped = Some(j);
                },
                None => {},
            }
        }
        if stepped.is_none() && acc_comp.is_none() {
            match parse_member_bool(buf, pos, &k_comp) {
                Some((b, j)) => {
                    proof {
                        lemma_member_bool_bounds(buf@, i0, key_completed());
                    }
                    acc_comp = Some(b);
                    stepped = Some(j);
                },
                None => {},
            }
        }
        let j = match stepped {
            Some(j) => j,
            None => {
                // no member of the schema fits here
                assert(spec_task_members(buf@, i0, acc0) is None);
                return None;
            },
        };
        let ghost acc1 = task_acc(acc_id, acc_uid, acc_title, acc_comp);
        proof {
            assert(pos < j <= buf.len());
            assert(spec_task_members(buf@, i0, acc0) == spec_task_after(buf@, j as int, acc1));
        }
        let w = crate::json::skip_ws_at(buf, j);
        if w < buf.len() && buf[w] == COMMA {
            pos = w + 1;
        } else if w < buf.len() && buf[w] == RBRACE {
            let e = crate::json::skip_ws_at(buf, w + 1);
            if e != buf.len() {
                return None;
            }
            match (acc_id, acc_uid, acc_title, acc_comp) {
                (Some(id), Some(user_id), Some(title), Some(completed)) => {
                    return Some(Task { id, user_id, title, completed });
                },
                _ => {
                    return None;
                },
            }
        } else {
            return None;
        }
    }
}

/// Round trip: the canonical encoding of any `Task` decodes back to the
/// same record; the codec loses nothing.
pub proof fn lemma_task_round_trip(t: TaskV)
    ensures
        spec_parse_task(spec_encode_task(t)) == Some(t),
{
    let m1 = spec_member_enc_i32(key_id(), t.id);
    let m2 = spec_member_enc_i32(key_user_id(), t.user_id);
    let m3 = spec_member_enc_str(key_title(), t.title);
    let m4 = spec_member_enc_bool(key_completed(), t.completed);
    let s = spec_encode_task(t);
    let q1 = 1int;
    let q2 = q1 + m1.len();
    let q3 = q2 + 1;
    let q4 = q3 + m2.len();
    let q5 = q4 + 1;
    let q6 = q5 + m3.len();
    let q7 = q6 + 1;
    let q8 = q7 + m4.len();
    assert(s.len() == q8 + 1);
    assert(s[0] == LBRACE);
    assert(s[q2] == COMMA);
    assert(s[q4] == COMMA);
    assert(s[q6] == COMMA);
    assert(s[q8] == RBRACE);
    assert(spec_skip_ws(s, 0) == 0);
    assert(spec_expect(s, 0, LBRACE) == Some(q1));
    assert(s.subrange(q1, q2) =~= m1);
    lemma_member_i32_rt(s, q1, key_id(), t.id);
    assert(spec_skip_ws(s, q2) == q2);
    assert(s.subrange(q3, q4) =~= m2);
    lemma_member_i32_rt(s, q3, key_user_id(), t.user_id);
    assert(spec_skip_ws(s, q4) == q4);
    assert(s.subrange(q5, q6) =~= m3);
    lemma_member_str_rt(s, q5, key_title(), t.title);
    assert(spec_skip_ws(s, q6) == q6);
    assert(s.subrange(q7, q8) =~= m4);
    lemma_member_bool_rt(s, q7, key_completed(), t.completed);
    assert(spec_skip_ws(s, q8) == q8);
    assert(spec_skip_ws(s, q8 + 1) == s.len());
    let acc0 = TaskAcc { id: None, user_id: None, title: None, completed: None };
    let acc1 = TaskAcc { id: Some(t.id), ..acc0 };
    let acc2 = TaskAcc { user_id: Some(t.user_id), ..acc1 };
    let acc3 = TaskAcc { title: Some(t.title), ..acc2 };
    let acc4 = TaskAcc { completed: Some(t.completed), ..acc3 };
    assert(spec_task_members(s, q1, acc0) == spec_task_after(s, q2, acc1));
    assert(spec_task_after(s, q2, acc1) == spec_task_members(s, q3, acc1));
    assert(spec_task_members(s, q3, acc1) == spec_task_after(s, q4, acc2));
    assert(spec_task_after(s, q4, acc2) == spec_task_members(s, q5, acc2));
    assert(spec_task_members(s, q5, acc2) == spec_task_after(s, q6, acc3));
    assert(spec_task_after(s, q6, acc3) == spec_task_members(s, q7, acc3));
    assert(spec_task_members(s, q7, acc3) == spec_task_after(s, q8, acc4));
    assert(spec_task_after(s, q8, acc4) == Some(
        TaskV { id: t.id, user_id: t.user_id, title: t.title, completed: t.completed },
    ));
    assert(TaskV { id: t.id, user_id: t.user_id, title: t.title, completed: t.completed } == t);
}


// ---------------------------------------------------------------------------
// Payload
// ---------------------------------------------------------------------------

/// The record sent in a POST body.
#[derive(Debug, Clone, PartialEq, Eq)]
pub struct Payload {
    pub user_id: i32,
    pub title: Vec<u8>,
    pub body: Vec<u8>,
}

/// Mathematical view of a `Payload`.
pub struct PayloadV {
    pub user_id: i32,
    pub title: Seq<u8>,
    pub body: Seq<u8>,
}

impl View for Payload {
    type V = PayloadV;

    open spec fn view(&self) -> PayloadV {
        PayloadV { user_id: self.user_id, title: self.title@, body: self.body@ }
    }
}

/// Canonical JSON bytes of a `Payload`.
pub open spec fn spec_encode_payload(t: PayloadV) -> Seq<u8> {
    seq![LBRACE] + spec_member_enc_i32(key_user_id(), t.user_id) + seq![COMMA]
        + spec_member_enc_str(key_title(), t.title) + seq![COMMA] + spec_member_enc_str(
        key_body(),
        t.body,
    ) + seq![RBRACE]
}

/// A `Payload` while its members are read.
pub struct PayloadAcc {
    pub user_id: Option<i32>,
    pub title: Option<Seq<u8>>,
    pub body: Option<Seq<u8>>,
}

/// One member at position `i`, then the rest of a `Payload` object; the
/// fields may come in any order, each exactly once.
pub open spec fn spec_payload_members(s: Seq<u8>, i: int, acc: PayloadAcc) -> Option<PayloadV>
    decreases s.len() - i, 1int,
{
    if acc.user_id is None && spec_member_i32(s, i, key_user_id()) is Some {
        match spec_member_i32(s, i, key_user_id()) {
            Some((n, j)) => {
                proof {
                    lemma_member_i32_bounds(s, i, key_user_id());
                }
                spec_payload_after(s, j, PayloadAcc { user_id: Some(n), ..acc })
            },
            None => None,
        }
    } else if acc.title is None && spec_member_str(s, i, key_title()) is Some {
        match spec_member_str(s, i, key_title()) {
            Some((v, j)) => {
                proof {
                    lemma_member_str_bounds(s, i, key_title());
                }
                spec_payload_after(s, j, PayloadAcc { title: Some(v), ..acc })
            },
            None => None,
        }
    } else if acc.body is None && spec_member_str(s, i, key_body()) is Some {
        match spec_member_str(s, i, key_body()) {
            Some((v, j)) => {
                proof {
                    lemma_member_str_bounds(s, i, key_body());
                }
                spec_payload_after(s, j, PayloadAcc { body: Some(v), ..acc })
            },
            None => None,
        }
    } else {
        None
    }
}

/// After a member of a `Payload` object: a comma and another member, or
/// the end of the object with every field seen.
pub open spec fn spec_payload_after(s: Seq<u8>, j: int, acc: PayloadAcc) -> Option<PayloadV>
    decreases s.len() - j, 0int,
{
    let w = spec_skip_ws(s, j);
    if 0 <= w < s.len() && s[w] == COMMA {
        proof {
            if 0 <= j <= s.len() {
                lemma_skip_ws_bounds(s, j);
            }
        }
        spec_payload_members(s, w + 1, acc)
    } else if 0 <= w < s.len() && s[w] == RBRACE && spec_skip_ws(s, w + 1) == s.len() {
        match (acc.user_id, acc.title, acc.body) {
            (Some(uid), Some(title), Some(body)) => Some(
                PayloadV { user_id: uid, title, body },
            ),
            _ => None,
        }
    } else {
        None
    }
}

/// The `Payload` a byte string denotes: an object with exactly the fields
/// `userId`, `title`, `body`, each exactly once, in any order.
pub open spec fn spec_parse_payload(s: Seq<u8>) -> Option<PayloadV> {
    match spec_expect(s, 0, LBRACE) {
        Some(p0) => spec_payload_members(
            s,
            p0,
            PayloadAcc { user_id: None, title: None, body: None },
        ),
        None => None,
    }
}

/// The fields gathered by the executable decoder, as a `PayloadAcc`.
pub open spec fn payload_acc(
    user_id: Option<i32>,
    title: Option<Vec<u8>>,
    body: Option<Vec<u8>>,
) -> PayloadAcc {
    PayloadAcc {
        user_id,
        title: match title {
            Some(v) => Some(v@),
            None => None,
        },
        body: match body {
            Some(v) => Some(v@),
            None => None,
        },
    }
}

/// Encodes a `Payload` to its canonical JSON bytes; this is the POST body.
pub fn encode_payload(t: &Payload) -> (r: Vec<u8>)
    ensures
        r@ == spec_encode_payload(t@),
{
    let mut out: Vec<u8> = Vec::new();
    out.push(LBRACE);
    let k1 = key_user_id_vec();
    push_member_key(&mut out, &k1);
    push_i32_dec(&mut out, t.user_id);
    assert(out@ =~= seq![LBRACE] + spec_member_enc_i32(key_user_id(), t@.user_id));
    let ghost o1 = out@;
    out.push(COMMA);
    let k2 = key_title_vec();
    push_member_key(&mut out, &k2);
    encode_quoted(&mut out, &t.title);
    assert(out@ =~= o1 + seq![COMMA] + spec_member_enc_str(key_title(), t@.title));
    let ghost o2 = out@;
    out.push(COMMA);
    let k3 = key_body_vec();
    push_member_key(&mut out, &k3);
    encode_quoted(&mut out, &t.body);
    assert(out@ =~= o2 + seq![COMMA] + spec_member_enc_str(key_body(), t@.body));
    out.push(RBRACE);
    assert(out@ =~= spec_encode_payload(t@));
    out
}

/// Decodes a `Payload` from JSON bytes, under the same grammar rules as
/// `decode_task`.
pub fn decode_payload(buf: &Vec<u8>) -> (r: Option<Payload>)
    ensures
        match r {
            Some(t) => spec_parse_payload(buf@) == Some(t@),
            None => spec_parse_payload(buf@) is None,
        },
{
    let p0 = match expect_byte(buf, 0, LBRACE) {
        Some(p) => p,
        None => {
            return None;
        },
    };
    let k_uid = key_user_id_vec();
    let k_title = key_title_vec();
    let k_body = key_body_vec();
    let mut acc_uid: Option<i32> = None;
    let mut acc_title: Option<Vec<u8>> = None;
    let mut acc_body: Option<Vec<u8>> = None;
    let mut pos: usize = p0;
    loop
        invariant
            pos <= buf.len(),
            k_uid@ == key_user_id(),
            k_title@ == key_title(),
            k_body@ == key_body(),
            spec_parse_payload(buf@) == spec_payload_members(
                buf@,
                pos as int,
                payload_acc(acc_uid, acc_title, acc_body),
            ),
        decreases buf.len() - pos,
    {
        let ghost i0 = pos as int;
        let ghost acc0 = payload_acc(acc_uid, acc_title, acc_body);
        let mut stepped: Option<usize> = None;
        if acc_uid.is_none() {
            match parse_member_i32(buf, pos, &k_uid) {
                Some((n, j)) => {
                    proof {
                        lemma_member_i32_bounds(buf@, i0, key_user_id());
                    }
                    acc_uid = Some(n);
                    stepped = Some(j);
                },
                None => {},
            }
        }
        if stepped.is_none() && acc_title.is_none() {
            match parse_member_str(buf, pos, &k_title) {
                Some((v, j)) => {
                    proof {
                        lemma_member_str_bounds(buf@, i0, key_title());
                    }
                    acc_title = Some(v);
                    stepped = Some(j);
                },
                None => {},
            }
        }
        if stepped.is_none() && acc_body.is_none() {
            match parse_member_str(buf, pos, &k_body) {
                Some((v, j)) => {
                    proof {
                        lemma_member_str_bounds(buf@, i0, key_body());
                    }
                    acc_body = Some(v);
                    stepped = Some(j);
                },
                None => {},
            }
        }
        let j = match stepped {
            Some(j) => j,
            None => {
                // no member of the schema fits here
                assert(spec_payload_members(buf@, i0, acc0) is None);
                return None;
            },
        };
        let ghost acc1 = payload_acc(acc_uid, acc_title, acc_body);
        proof {
            assert(pos < j <= buf.len());
            assert(spec_payload_members(buf@, i0, acc0) == spec_payload_after(
                buf@,
                j as int,
                acc1,
            ));
        }
        let w = crate::json::skip_ws_at(buf, j);
        if w < buf.len() && buf[w] == COMMA {
            pos = w + 1;
        } else if w < buf.len() && buf[w] == RBRACE {
            let e = crate::json::skip_ws_at(buf, w + 1);
            if e != buf.len() {
                return None;
            }
            match (acc_uid, acc_title, acc_body) {
                (Some(user_id), Some(title), Some(body)) => {
                    return Some(Payload { user_id, title, body });
                },
                _ => {
                    return None;
                },
            }
        } else {
            return None;
        }
    }
}

/// Round trip: the canonical encoding of any `Payload` decodes back to the
/// same record.
pub proof fn lemma_payload_round_trip(t: PayloadV)
    ensures
        spec_parse_payload(spec_encode_payload(t)) == Some(t),
{
    let m1 = spec_member_enc_i32(key_user_id(), t.user_id);
    let m2 = spec_member_enc_str(key_title(), t.title);
    let m3 = spec_member_enc_str(key_body(), t.body);
    let s = spec_encode_payload(t);
    let q1 = 1int;
    let q2 = q1 + m1.len();
    let q3 = q2 + 1;
    let q4 = q3 + m2.len();
    let q5 = q4 + 1;
    let q6 = q5 + m3.len();
    assert(s.len() == q6 + 1);
    assert(s[0] == LBRACE);
    assert(s[q2] == COMMA);
    assert(s[q4] == COMMA);
    assert(s[q6] == RBRACE);
    assert(spec_skip_ws(s, 0) == 0);
    assert(spec_expect(s, 0, LBRACE) == Some(q1));
    assert(s.subrange(q1, q2) =~= m1);
    lemma_member_i32_rt(s, q1, key_user_id(), t.user_id);
    assert(spec_skip_ws(s, q2) == q2);
    assert(s.subrange(q3, q4) =~= m2);
    lemma_member_str_rt(s, q3, key_title(), t.title);
    assert(spec_skip_ws(s, q4) == q4);
    assert(s.subrange(q5, q6) =~= m3);
    lemma_member_str_rt(s, q5, key_body(), t.body);
    assert(spec_skip_ws(s, q6) == q6);
    assert(spec_skip_ws(s, q6 + 1) == s.len());
    let acc0 = PayloadAcc { user_id: None, title: None, body: None };
    let acc1 = PayloadAcc { user_id: Some(t.user_id), ..acc0 };
    let acc2 = PayloadAcc { title: Some(t.title), ..acc1 };
    let acc3 = PayloadAcc { body: Some(t.body), ..acc2 };
    assert(spec_payload_members(s, q1, acc0) == spec_payload_after(s, q2, acc1));
    assert(spec_payload_after(s, q2, acc1) == spec_payload_members(s, q3, acc1));
    assert(spec_payload_members(s, q3, acc1) == spec_payload_after(s, q4, acc2));
    assert(spec_payload_after(s, q4, acc2) == spec_payload_members(s, q5, acc2));
    assert(spec_payload_members(s, q5, acc2) == spec_payload_after(s, q6, acc3));
    assert(spec_payload_after(s, q6, acc3) == Some(
        PayloadV { user_id: t.user_id, title: t.title, body: t.body },
    ));
    assert(PayloadV { user_id: t.user_id, title: t.title, body: t.body } == t);
}

// ---------------------------------------------------------------------------
// SocialMediaPost
// ---------------------------------------------------------------------------

/// The record a POST response carries: the payload echoed back plus the
/// identifier the service assigned.
#[derive(Debug, Clone, PartialEq, Eq)]
pub struct SocialMediaPost {
    pub user_id: i32,
    pub title: Vec<u8>,
    pub body: Vec<u8>,
    pub id: i32,
}

/// Mathematical view of a `SocialMediaPost`.
pub struct SocialMediaPostV {
    pub user_id: i32,
    pub title: Seq<u8>,
    pub body: Seq<u8>,
    pub id: i32,
}

impl View for SocialMediaPost {
    type V = SocialMediaPostV;

    open spec fn view(&self) -> SocialMediaPostV {
        SocialMediaPostV {
            user_id: self.user_id,
            title: self.title@,
            body: self.body@,
            id: self.id,
        }
    }
}

/// Canonical JSON bytes of a `SocialMediaPost`.
pub open spec fn spec_encode_post(t: SocialMediaPostV) -> Seq<u8> {
    seq![LBRACE] + spec_member_enc_i32(key_user_id(), t.user_id) + seq![COMMA]
        + spec_member_enc_str(key_title(), t.title) + seq![COMMA] + spec_member_enc_str(
        key_body(),
        t.body,
    ) + seq![COMMA] + spec_member_enc_i32(key_id(), t.id) + seq![RBRACE]
}

/// A `SocialMediaPost` while its members are read.
pub struct PostAcc {
    pub user_id: Option<i32>,
    pub title: Option<Seq<u8>>,
    pub body: Option<Seq<u8>>,
    pub id: Option<i32>,
}

/// One member at position `i`, then the rest of a `SocialMediaPost`
/// object; the fields may come in any order, each exactly once.
pub open spec fn spec_post_members(s: Seq<u8>, i: int, acc: PostAcc) -> Option<SocialMediaPostV>
    decreases s.len() - i, 1int,
{
    if acc.user_id is None && spec_member_i32(s, i, key_user_id()) is Some {
        match spec_member_i32(s, i, key_user_id()) {
            Some((n, j)) => {
                proof {
                    lemma_member_i32_bounds(s, i, key_user_id());
                }
                spec_post_after(s, j, PostAcc { user_id: Some(n), ..acc })
            },
            None => None,
        }
    } else if acc.title is None && spec_member_str(s, i, key_title()) is Some {
        match spec_member_str(s, i, key_title()) {
            Some((v, j)) => {
                proof {
                    lemma_member_str_bounds(s, i, key_title());
                }
                spec_post_after(s, j, PostAcc { title: Some(v), ..acc })
            },
            None => None,
        }
    } else if acc.body is None && spec_member_str(s, i, key_body()) is Some {
        match spec_member_str(s, i, key_body()) {
            Some((v, j)) => {
                proof {
                    lemma_member_str_bounds(s, i, key_body());
                }
                spec_post_after(s, j, PostAcc { body: Some(v), ..acc })
            },
            None => None,
        }
    } else if acc.id is None && spec_member_i32(s, i, key_id()) is Some {
        match spec_member_i32(s, i, key_id()) {
            Some((n, j)) => {
                proof {
                    lemma_member_i32_bounds(s, i, key_id());
                }
                spec_post_after(s, j, PostAcc { id: Some(n), ..acc })
            },
            None => None,
        }
    } else {
        None
    }
}

/// After a member of a `SocialMediaPost` object: a comma and another
/// member, or the end of the object with every field seen.
pub open spec fn spec_post_after(s: Seq<u8>, j: int, acc: PostAcc) -> Option<SocialMediaPostV>
    decreases s.len() - j, 0int,
{
    let w = spec_skip_ws(s, j);
    if 0 <= w < s.len() && s[w] == COMMA {
        proof {
            if 0 <= j <= s.len() {
                lemma_skip_ws_bounds(s, j);
            }
        }
        spec_post_members(s, w + 1, acc)
    } else if 0 <= w < s.len() && s[w] == RBRACE && spec_skip_ws(s, w + 1) == s.len() {
        match (acc.user_id, acc.title, acc.body, acc.id) {
            (Some(uid), Some(title), Some(body), Some(id)) => Some(
                SocialMediaPostV { user_id: uid, title, body, id },
            ),
            _ => None,
        }
    } else {
        None
    }
}

/// The `SocialMediaPost` a byte string denotes: an object with exactly the
/// fields `userId`, `title`, `body`, `id`, each exactly once, in any order.
pub open spec fn spec_parse_post(s: Seq<u8>) -> Option<SocialMediaPostV> {
    match spec_expect(s, 0, LBRACE) {
        Some(p0) => spec_post_members(
            s,
            p0,
            PostAcc { user_id: None, title: None, body: None, id: None },
        ),
        None => None,
    }
}

/// The fields gathered by the executable decoder, as a `PostAcc`.
pub open spec fn post_acc(
    user_id: Option<i32>,
    title: Option<Vec<u8>>,
    body: Option<Vec<u8>>,
    id: Option<i32>,
) -> PostAcc {
    PostAcc {
        user_id,
        title: match title {
            Some(v) => Some(v@),
            None => None,
        },
        body: match body {
            Some(v) => Some(v@),
            None => None,
        },
        id,
    }
}

/// Encodes a `SocialMediaPost` to its canonical JSON bytes.
pub fn encode_post(t: &SocialMediaPost) -> (r: Vec<u8>)
    ensures
        r@ == spec_encode_post(t@),
{
    let mut out: Vec<u8> = Vec::new();
    out.push(LBRACE);
    let k1 = key_user_id_vec();
    push_member_key(&mut out, &k1);
    push_i32_dec(&mut out, t.user_id);
    assert(out@ =~= seq![LBRACE] + spec_member_enc_i32(key_user_id(), t@.user_id));
    let ghost o1 = out@;
    out.push(COMMA);
    let k2 = key_title_vec();
    push_member_key(&mut out, &k2);
    encode_quoted(&mut out, &t.title);
    assert(out@ =~= o1 + seq![COMMA] + spec_member_enc_str(key_title(), t@.title));
    let ghost o2 = out@;
    out.push(COMMA);
    let k3 = key_body_vec();
    push_member_key(&mut out, &k3);
    encode_quoted(&mut out, &t.body);
    assert(out@ =~= o2 + seq![COMMA] + spec_member_enc_str(key_body(), t@.body));
    let ghost o3 = out@;
    out.push(COMMA);
    let k4 = key_id_vec();
    push_member_key(&mut out, &k4);
    push_i32_dec(&mut out, t.id);
    assert(out@ =~= o3 + seq![COMMA] + spec_member_enc_i32(key_id(), t@.id));
    out.push(RBRACE);
    assert(out@ =~= spec_encode_post(t@));
    out
}

/// Decodes a `SocialMediaPost` from JSON bytes, under the same grammar
/// rules as `decode_task`.
pub fn decode_post(buf: &Vec<u8>) -> (r: Option<SocialMediaPost>)
    ensures
        match r {
            Some(t) => spec_parse_post(buf@) == Some(t@),
            None => spec_parse_post(buf@) is None,
        },
{
    let p0 = match expect_byte(buf, 0, LBRACE) {
        Some(p) => p,
        None => {
            return None;
        },
    };
    let k_uid = key_user_id_vec();
    let k_title = key_title_vec();
    let k_body = key_body_vec();
    let k_id = key_id_vec();
    let mut acc_uid: Option<i32> = None;
    let mut acc_title: Option<Vec<u8>> = None;
    let mut acc_body: Option<Vec<u8>> = None;
    let mut acc_id: Option<i32> = None;
    let mut pos: usize = p0;
    loop
        invariant
            pos <= buf.len(),
            k_uid@ == key_user_id(),
            k_title@ == key_title(),
            k_body@ == key_body(),
            k_id@ == key_id(),
            spec_parse_post(buf@) == spec_post_members(
                buf@,
                pos as int,
                post_acc(acc_uid, acc_title, acc_body, acc_id),
            ),
        decreases buf.len() - pos,
    {
        let ghost i0 = pos as int;
        let ghost acc0 = post_acc(acc_uid, acc_title, acc_body, acc_id);
        let mut stepped: Option<usize> = None;
        if acc_uid.is_none() {
            match parse_member_i32(buf, pos, &k_uid) {
                Some((n, j)) => {
                    proof {
                        lemma_member_i32_bounds(buf@, i0, key_user_id());
                    }
                    acc_uid = Some(n);
                    stepped = Some(j);
                },
                None => {},
            }
        }
        if stepped.is_none() && acc_title.is_none() {
            match parse_member_str(buf, pos, &k_title) {
                Some((v, j)) => {
                    proof {
                        lemma_member_str_bounds(buf@, i0, key_title());
                    }
                    acc_title = Some(v);
                    stepped = Some(j);
                },
                None => {},
            }
        }
        if stepped.is_none() && acc_body.is_none() {
            match parse_member_str(buf, pos, &k_body) {
                Some((v, j)) => {
                    proof {
                        lemma_member_str_bounds(buf@, i0, key_body());
                    }
                    acc_body = Some(v);
                    stepped = Some(j);
                },
                None => {},
            }
        }
        if stepped.is_none() && acc_id.is_none() {
            match parse_member_i32(buf, pos, &k_id) {
                Some((n, j)) => {
                    proof {
                        lemma_member_i32_bounds(buf@, i0, key_id());
                    }
                    acc_id = Some(n);
                    stepped = Some(j);
                },
                None => {},
            }
        }
        let j = match stepped {
            Some(j) => j,
            None => {
                // no member of the schema fits here
                assert(spec_post_members(buf@, i0, acc0) is None);
                return None;
            },
        };
        let ghost acc1 = post_acc(acc_uid, acc_title, acc_body, acc_id);
        proof {
            assert(pos < j <= buf.len());
            assert(spec_post_members(buf@, i0, acc0) == spec_post_after(buf@, j as int, acc1));
        }
        let w = crate::json::skip_ws_at(buf, j);
        if w < buf.len() && buf[w] == COMMA {
            pos = w + 1;
        } else if w < buf.len() && buf[w] == RBRACE {
            let e = crate::json::skip_ws_at(buf, w + 1);
            if e != buf.len() {
                return None;
            }
            match (acc_uid, acc_title, acc_body, acc_id) {
                (Some(user_id), Some(title), Some(body), Some(id)) => {
                    return Some(SocialMediaPost { user_id, title, body, id });
                },
                _ => {
                    return None;
                },
            }
        } else {
            return None;
        }
    }
}

/// Round trip: the canonical encoding of any `SocialMediaPost` decodes back
/// to the same record.
pub proof fn lemma_post_round_trip(t: SocialMediaPostV)
    ensures
        spec_parse_post(spec_encode_post(t)) == Some(t),
{
    let m1 = spec_member_enc_i32(key_user_id(), t.user_id);
    let m2 = spec_member_enc_str(key_title(), t.title);
    let m3 = spec_member_enc_str(key_body(), t.body);
    let m4 = spec_member_enc_i32(key_id(), t.id);
    let s = spec_encode_post(t);
    let q1 = 1int;
    let q2 = q1 + m1.len();
    let q3 = q2 + 1;
    let q4 = q3 + m2.len();
    let q5 = q4 + 1;
    let q6 = q5 + m3.len();
    let q7 = q6 + 1;
    let q8 = q7 + m4.len();
    assert(s.len() == q8 + 1);
    assert(s[0] == LBRACE);
    assert(s[q2] == COMMA);
    assert(s[q4] == COMMA);
    assert(s[q6] == COMMA);
    assert(s[q8] == RBRACE);
    assert(spec_skip_ws(s, 0) == 0);
    assert(spec_expect(s, 0, LBRACE) == Some(q1));
    assert(s.subrange(q1, q2) =~= m1);
    lemma_member_i32_rt(s, q1, key_user_id(), t.user_id);
    assert(spec_skip_ws(s, q2) == q2);
    assert(s.subrange(q3, q4) =~= m2);
    lemma_member_str_rt(s, q3, key_title(), t.title);
    assert(spec_skip_ws(s, q4) == q4);
    assert(s.subrange(q5, q6) =~= m3);
    lemma_member_str_rt(s, q5, key_body(), t.body);
    assert(spec_skip_ws(s, q6) == q6);
    assert(s.subrange(q7, q8) =~= m4);
    lemma_member_i32_rt(s, q7, key_id(), t.id);
    assert(spec_skip_ws(s, q8) == q8);
    assert(spec_skip_ws(s, q8 + 1) == s.len());
    let acc0 = PostAcc { user_id: None, title: None, body: None, id: None };
    let acc1 = PostAcc { user_id: Some(t.user_id), ..acc0 };
    let acc2 = PostAcc { title: Some(t.title), ..acc1 };
    let acc3 = PostAcc { body: Some(t.body), ..acc2 };
    let acc4 = PostAcc { id: Some(t.id), ..acc3 };
    assert(spec_post_members(s, q1, acc0) == spec_post_after(s, q2, acc1));
    assert(spec_post_after(s, q2, acc1) == spec_post_members(s, q3, acc1));
    assert(spec_post_members(s, q3, acc1) == spec_post_after(s, q4, acc2));
    assert(spec_post_after(s, q4, acc2) == spec_post_members(s, q5, acc2));
    assert(spec_post_members(s, q5, acc2) == spec_post_after(s, q6, acc3));
    assert(spec_post_after(s, q6, acc3) == spec_post_members(s, q7, acc3));
    assert(spec_post_members(s, q7, acc3) == spec_post_after(s, q8, acc4));
    assert(spec_post_after(s, q8, acc4) == Some(
        SocialMediaPostV { user_id: t.user_id, title: t.title, body: t.body, id: t.id },
    ));
    assert(SocialMediaPostV { user_id: t.user_id, title: t.title, body: t.body, id: t.id } == t);
}


// ---------------------------------------------------------------------------
// The decodable capability
// ---------------------------------------------------------------------------

/// A record type with a JSON decoding schema. The typed helpers are
/// parameterized over this capability: the caller picks the target type,
/// and the schema follows from it.
pub trait JsonRecord: Sized + View {
    /// The record a byte string denotes under this type's schema.
    spec fn spec_parse(s: Seq<u8>) -> Option<Self::V>;

    /// Decodes a record under this type's schema, `None` when the bytes do
    /// not denote one.
    fn decode_json(buf: &Vec<u8>) -> (r: Option<Self>)
        ensures
            match r {
                Some(t) => Self::spec_parse(buf@) == Some(t@),
                None => Self::spec_parse(buf@) is None,
            },
    ;
}

impl JsonRecord for Task {
    open spec fn spec_parse(s: Seq<u8>) -> Option<TaskV> {
        spec_parse_task(s)
    }

    fn decode_json(buf: &Vec<u8>) -> (r: Option<Task>) {
        decode_task(buf)
    }
}

impl JsonRecord for Payload {
    open spec fn spec_parse(s: Seq<u8>) -> Option<PayloadV> {
        spec_parse_payload(s)
    }

    fn decode_json(buf: &Vec<u8>) -> (r: Option<Payload>) {
        decode_payload(buf)
    }
}

impl JsonRecord for SocialMediaPost {
    open spec fn spec_parse(s: Seq<u8>) -> Option<SocialMediaPostV> {
        spec_parse_post(s)
    }

    fn decode_json(buf: &Vec<u8>) -> (r: Option<SocialMediaPost>) {
        decode_post(buf)
    }
}


} // verus!
