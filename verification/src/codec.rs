//! The JSON wire format of the todo endpoints: an array of objects with the
//! fields `userId`, `id`, `title`, `completed`. Two layers:
//!
//! - `encode_todos` states the canonical rendering (members in the order the
//!   endpoint serves them, no whitespace); `decode_todos` and `decode_todo`
//!   are proved to accept exactly the canonical texts: decoding is sound (a
//!   success reproduces the input text) and complete (the encoding of any
//!   collection with representable titles decodes to that collection,
//!   fields copied verbatim).
//! - `decode_todos_json` and `decode_todo_json` are the transport-facing
//!   decoders: they additionally accept insignificant whitespace anywhere
//!   outside quoted strings, as the endpoint's pretty-printed output has
//!   it, and each record's members in any order.
//!
//! - `decode_todos_any` and `decode_todo_any` further accept each record's
//!   four members in any order, under the rendering specs `rtodo` and
//!   `arr_rend`, again both sound and complete.
//!
//! One narrowing of full JSON is deliberate and visible in the contracts:
//! titles carry no escape sequences (`valid_title`), so a title with a
//! quote or backslash has no rendering in this format, and unknown members
//! are not part of it.

use vstd::prelude::*;

use crate::TodoV;
use crate::num::dec_digits;
use crate::num::is_digit;
use crate::num::scan_number;

verus! {

/// A title the wire format can carry verbatim: no quote and no backslash,
/// the two characters that would need escaping.
pub open spec fn valid_title(t: Seq<char>) -> bool {
    forall|i: int| 0 <= i < t.len() ==> #[trigger] t[i] != '"' && t[i] != '\\'
}

pub open spec fn valid_todo(t: TodoV) -> bool {
    valid_title(t.title)
}

pub open spec fn valid_todos(ts: Seq<TodoV>) -> bool {
    forall|i: int| 0 <= i < ts.len() ==> valid_todo(#[trigger] ts[i])
}

pub open spec fn bool_chars(b: bool) -> Seq<char> {
    if b {
        "true"@
    } else {
        "false"@
    }
}

pub open spec fn key_user() -> Seq<char> {
    "{\"userId\":"@
}

pub open spec fn key_id() -> Seq<char> {
    ",\"id\":"@
}

pub open spec fn key_title() -> Seq<char> {
    ",\"title\":\""@
}

pub open spec fn key_completed() -> Seq<char> {
    "\",\"completed\":"@
}

pub open spec fn key_close() -> Seq<char> {
    "}"@
}

/// The wire text of one record.
pub open spec fn encode_todo(t: TodoV) -> Seq<char> {
    key_user() + dec_digits(t.user_id as nat) + key_id() + dec_digits(t.id as nat) + key_title()
        + t.title + key_completed() + bool_chars(t.completed) + key_close()
}

/// Offsets of the pieces of `encode_todo(t)` from its start.
pub open spec fn off1(t: TodoV) -> int {
    key_user().len() as int
}

pub open spec fn off2(t: TodoV) -> int {
    off1(t) + dec_digits(t.user_id as nat).len()
}

pub open spec fn off3(t: TodoV) -> int {
    off2(t) + key_id().len()
}

pub open spec fn off4(t: TodoV) -> int {
    off3(t) + dec_digits(t.id as nat).len()
}

pub open spec fn off5(t: TodoV) -> int {
    off4(t) + key_title().len()
}

pub open spec fn off6(t: TodoV) -> int {
    off5(t) + t.title.len()
}

pub open spec fn off7(t: TodoV) -> int {
    off6(t) + key_completed().len()
}

pub open spec fn off8(t: TodoV) -> int {
    off7(t) + bool_chars(t.completed).len()
}

pub open spec fn off9(t: TodoV) -> int {
    off8(t) + key_close().len()
}

/// The record `t` is encoded in `s` starting at `pos`.
pub open spec fn todo_encoded_at(s: Seq<char>, pos: int, t: TodoV) -> bool {
    &&& valid_todo(t)
    &&& 0 <= pos
    &&& pos + encode_todo(t).len() <= s.len()
    &&& s.subrange(pos, pos + encode_todo(t).len()) == encode_todo(t)
}

/// Where each piece of an encoded record lies in the surrounding text.
pub proof fn lemma_todo_layout(s: Seq<char>, pos: int, t: TodoV)
    requires
        todo_encoded_at(s, pos, t),
    ensures
        off9(t) == encode_todo(t).len(),
        s.subrange(pos, pos + off1(t)) == key_user(),
        s.subrange(pos + off1(t), pos + off2(t)) == dec_digits(t.user_id as nat),
        s.subrange(pos + off2(t), pos + off3(t)) == key_id(),
        s.subrange(pos + off3(t), pos + off4(t)) == dec_digits(t.id as nat),
        s.subrange(pos + off4(t), pos + off5(t)) == key_title(),
        s.subrange(pos + off5(t), pos + off6(t)) == t.title,
        s.subrange(pos + off6(t), pos + off7(t)) == key_completed(),
        s.subrange(pos + off7(t), pos + off8(t)) == bool_chars(t.completed),
        s.subrange(pos + off8(t), pos + off9(t)) == key_close(),
{
    let d1 = dec_digits(t.user_id as nat);
    let d2 = dec_digits(t.id as nat);
    let b = bool_chars(t.completed);
    let x8 = key_user() + d1 + key_id() + d2 + key_title() + t.title + key_completed() + b;
    let x7 = key_user() + d1 + key_id() + d2 + key_title() + t.title + key_completed();
    let x6 = key_user() + d1 + key_id() + d2 + key_title() + t.title;
    let x5 = key_user() + d1 + key_id() + d2 + key_title();
    let x4 = key_user() + d1 + key_id() + d2;
    let x3 = key_user() + d1 + key_id();
    let x2 = key_user() + d1;
    assert(s.subrange(pos, pos + x8.len() + key_close().len()) == x8 + key_close());
    lemma_seg_split(s, pos, x8, key_close());
    assert(s.subrange(pos, pos + x7.len() + b.len()) == x7 + b);
    lemma_seg_split(s, pos, x7, b);
    assert(s.subrange(pos, pos + x6.len() + key_completed().len()) == x6 + key_completed());
    lemma_seg_split(s, pos, x6, key_completed());
    assert(s.subrange(pos, pos + x5.len() + t.title.len()) == x5 + t.title);
    lemma_seg_split(s, pos, x5, t.title);
    assert(s.subrange(pos, pos + x4.len() + key_title().len()) == x4 + key_title());
    lemma_seg_split(s, pos, x4, key_title());
    assert(s.subrange(pos, pos + x3.len() + d2.len()) == x3 + d2);
    lemma_seg_split(s, pos, x3, d2);
    assert(s.subrange(pos, pos + x2.len() + key_id().len()) == x2 + key_id());
    lemma_seg_split(s, pos, x2, key_id());
    assert(s.subrange(pos, pos + key_user().len() + d1.len()) == key_user() + d1);
    lemma_seg_split(s, pos, key_user(), d1);
}

/// The wire text of every record after the first, each preceded by the
/// separating comma.
pub open spec fn encode_rest(ts: Seq<TodoV>) -> Seq<char>
    decreases ts.len(),
{
    if ts.len() == 0 {
        Seq::empty()
    } else {
        seq![','] + encode_todo(ts[0]) + encode_rest(ts.drop_first())
    }
}

/// The comma-separated wire text of the records.
pub open spec fn encode_items(ts: Seq<TodoV>) -> Seq<char> {
    if ts.len() == 0 {
        Seq::empty()
    } else {
        encode_todo(ts[0]) + encode_rest(ts.drop_first())
    }
}

/// The wire text of a whole collection response.
pub open spec fn encode_todos(ts: Seq<TodoV>) -> Seq<char> {
    seq!['['] + encode_items(ts) + seq![']']
}

/// Appending a record extends the comma-separated text by a comma and that
/// record.
pub proof fn lemma_rest_push(ts: Seq<TodoV>, t: TodoV)
    ensures
        encode_rest(ts.push(t)) == encode_rest(ts) + seq![','] + encode_todo(t),
    decreases ts.len(),
{
    if ts.len() == 0 {
        assert(ts.push(t).drop_first() =~= Seq::<TodoV>::empty());
        assert(ts.push(t)[0] == t);
        assert(encode_rest(Seq::<TodoV>::empty()) == Seq::<char>::empty());
        assert(encode_rest(ts.push(t)) == seq![','] + encode_todo(t) + Seq::<char>::empty());
        assert(encode_rest(ts.push(t)) =~= encode_rest(ts) + seq![','] + encode_todo(t));
    } else {
        lemma_rest_push(ts.drop_first(), t);
        assert(ts.push(t).drop_first() =~= ts.drop_first().push(t));
        assert(ts.push(t)[0] == ts[0]);
        assert(encode_rest(ts.push(t)) =~= encode_rest(ts) + seq![','] + encode_todo(t));
    }
}

pub proof fn lemma_items_push(ts: Seq<TodoV>, t: TodoV)
    ensures
        ts.len() == 0 ==> encode_items(ts.push(t)) == encode_todo(t),
        ts.len() > 0 ==> encode_items(ts.push(t)) == encode_items(ts) + seq![','] + encode_todo(
            t,
        ),
{
    if ts.len() == 0 {
        assert(ts.push(t).drop_first() =~= Seq::<TodoV>::empty());
        assert(ts.push(t)[0] == t);
        assert(encode_items(ts.push(t)) =~= encode_todo(t));
    } else {
        lemma_rest_push(ts.drop_first(), t);
        assert(ts.push(t).drop_first() =~= ts.drop_first().push(t));
        assert(ts.push(t)[0] == ts[0]);
        assert(encode_items(ts.push(t)) =~= encode_items(ts) + seq![','] + encode_todo(t));
    }
}

/// Splitting a segment of `s` known to hold `a + b` into the two parts.
pub proof fn lemma_seg_split(s: Seq<char>, pos: int, a: Seq<char>, b: Seq<char>)
    requires
        0 <= pos,
        pos + a.len() + b.len() <= s.len(),
        s.subrange(pos, pos + a.len() + b.len()) == a + b,
    ensures
        s.subrange(pos, pos + a.len() as int) == a,
        s.subrange(pos + a.len() as int, pos + a.len() + b.len()) == b,
{
    let whole = s.subrange(pos, pos + a.len() + b.len());
    assert forall|j: int| 0 <= j < a.len() implies s.subrange(pos, pos + a.len() as int)[j]
        == a[j] by {
        assert(whole[j] == (a + b)[j]);
    }
    assert forall|j: int|
        0 <= j < b.len() implies s.subrange(pos + a.len() as int, pos + a.len() + b.len())[j]
        == b[j] by {
        assert(whole[a.len() + j] == (a + b)[a.len() + j]);
    }
    assert(s.subrange(pos, pos + a.len() as int) =~= a);
    assert(s.subrange(pos + a.len() as int, pos + a.len() + b.len()) =~= b);
}

/// Matches the fixed text `pat` at `pos`, answering its end position
/// exactly when it is there.
pub(crate) fn expect_lit(s: &str, pos: usize, pat: &str) -> (r: Option<usize>)
    requires
        pos <= s@.len(),
    ensures
        r matches Some(end) ==> end == pos + pat@.len() && end <= s@.len() && s@.subrange(
            pos as int,
            end as int,
        ) == pat@,
        r is None ==> !(pos + pat@.len() <= s@.len() && s@.subrange(pos as int, pos + pat@.len())
            == pat@),
{
    let pl = pat.unicode_len();
    let sl = s.unicode_len();
    if pl > sl - pos {
        return None;
    }
    let mut i: usize = 0;
    while i < pl
        invariant
            0 <= i <= pl,
            pos + pl <= sl,
            sl == s@.len(),
            pl == pat@.len(),
            forall|j: int| 0 <= j < i ==> s@[pos + j] == #[trigger] pat@[j],
        decreases pl - i,
    {
        let a = s.get_char(pos + i);
        let b = pat.get_char(i);
        if a != b {
            proof {
                if s@.subrange(pos as int, pos + pl as int) == pat@ {
                    assert(s@.subrange(pos as int, pos + pl as int)[i as int] == pat@[i as int]);
                    assert(false);
                }
            }
            return None;
        }
        i = i + 1;
    }
    proof {
        assert(s@.subrange(pos as int, (pos + pl) as int) =~= pat@);
    }
    Some(pos + pl)
}

fn title_char_at(s: &str, i: usize) -> (r: bool)
    requires
        i < s@.len(),
    ensures
        r == (s@[i as int] != '"' && s@[i as int] != '\\'),
{
    let c = s.get_char(i);
    c != '"' && c != '\\'
}

/// Reads title characters up to the closing quote. Succeeds exactly when a
/// closing quote follows a run of characters free of quotes and
/// backslashes.
fn scan_title(s: &str, pos: usize) -> (r: Option<(String, usize)>)
    requires
        pos <= s@.len(),
    ensures
        r matches Some(p) ==> {
            &&& pos <= p.1 < s@.len()
            &&& p.0@ == s@.subrange(pos as int, p.1 as int)
            &&& valid_title(p.0@)
            &&& s@[p.1 as int] == '"'
        },
        forall|tt: Seq<char>|
            (valid_title(tt) && pos + tt.len() < s@.len() && s@.subrange(pos as int, pos + tt.len())
                == tt && s@[pos + tt.len()] == '"') ==> (r matches Some(p) && p.0@ == tt && p.1
                == pos + tt.len()),
{
    let sl = s.unicode_len();
    let mut end = pos;
    while end < sl && title_char_at(s, end)
        invariant
            pos <= end <= sl,
            sl == s@.len(),
            forall|j: int| pos <= j < end ==> s@[j] != '"' && #[trigger] s@[j] != '\\',
        decreases sl - end,
    {
        end = end + 1;
    }
    if end == sl {
        proof {
            assert forall|tt: Seq<char>|
                (valid_title(tt) && pos + tt.len() < s@.len() && s@.subrange(
                    pos as int,
                    pos + tt.len(),
                ) == tt && s@[pos + tt.len()] == '"') implies false by {
                assert(forall|j: int|
                    0 <= j < tt.len() ==> s@[pos + j] == #[trigger] tt[j]) by {
                    assert(forall|j: int|
                        0 <= j < tt.len() ==> s@.subrange(pos as int, pos + tt.len())[j]
                            == #[trigger] tt[j]);
                }
                assert(pos + tt.len() < end || pos + tt.len() >= end);
                if pos + tt.len() < end {
                    assert(s@[pos + tt.len()] != '"');
                } else {
                    assert(pos + tt.len() < sl);
                    assert(false);
                }
            }
        }
        return None;
    }
    let c = s.get_char(end);
    if c != '"' {
        proof {
            assert(s@[end as int] == '\\');
            assert forall|tt: Seq<char>|
                (valid_title(tt) && pos + tt.len() < s@.len() && s@.subrange(
                    pos as int,
                    pos + tt.len(),
                ) == tt && s@[pos + tt.len()] == '"') implies false by {
                assert(forall|j: int|
                    0 <= j < tt.len() ==> s@[pos + j] == #[trigger] tt[j]) by {
                    assert(forall|j: int|
                        0 <= j < tt.len() ==> s@.subrange(pos as int, pos + tt.len())[j]
                            == #[trigger] tt[j]);
                }
                if pos + tt.len() < end {
                    assert(s@[pos + tt.len()] != '"');
                    assert(false);
                } else if pos + tt.len() == end {
                    assert(s@[end as int] == '"');
                    assert(false);
                } else {
                    assert(tt[end - pos] != '\\');
                    assert(false);
                }
            }
        }
        return None;
    }
    let t = String::from_str(s.substring_char(pos, end));
    proof {
        assert forall|tt: Seq<char>|
            (valid_title(tt) && pos + tt.len() < s@.len() && s@.subrange(pos as int, pos + tt.len())
                == tt && s@[pos + tt.len()] == '"') implies t@ == tt && end == pos + tt.len() by {
            assert(forall|j: int|
                0 <= j < tt.len() ==> s@[pos + j] == #[trigger] tt[j]) by {
                assert(forall|j: int|
                    0 <= j < tt.len() ==> s@.subrange(pos as int, pos + tt.len())[j]
                        == #[trigger] tt[j]);
            }
            if pos + tt.len() < end {
                assert(s@[pos + tt.len()] != '"');
                assert(false);
            }
            if pos + tt.len() > end {
                assert(tt[end - pos] != '"');
                assert(s@[end as int] == '"');
                assert(false);
            }
            assert(t@ =~= tt);
        }
    }
    Some((t, end))
}

/// Reads the wire text of a boolean.
fn parse_bool(s: &str, pos: usize) -> (r: Option<(bool, usize)>)
    requires
        pos <= s@.len(),
    ensures
        r matches Some(p) ==> p.1 == pos + bool_chars(p.0).len() && p.1 <= s@.len() && s@.subrange(
            pos as int,
            p.1 as int,
        ) == bool_chars(p.0),
        forall|b: bool|
            (pos + bool_chars(b).len() <= s@.len() && s@.subrange(
                pos as int,
                pos + bool_chars(b).len(),
            ) == bool_chars(b)) ==> (r matches Some(p) && p.0 == b && p.1 == pos + bool_chars(
                b,
            ).len()),
{
    proof {
        reveal_strlit("true");
        reveal_strlit("false");
    }
    match expect_lit(s, pos, "true") {
        Some(end) => {
            proof {
                if pos + bool_chars(false).len() <= s@.len() && s@.subrange(
                    pos as int,
                    pos + bool_chars(false).len(),
                ) == bool_chars(false) {
                    assert(s@.subrange(pos as int, pos + 5)[0] == 'f');
                    assert(s@.subrange(pos as int, pos + 4)[0] == 't');
                    assert(false);
                }
            }
            return Some((true, end));
        },
        None => {},
    }
    match expect_lit(s, pos, "false") {
        Some(end) => {
            proof {
                if pos + bool_chars(true).len() <= s@.len() && s@.subrange(
                    pos as int,
                    pos + bool_chars(true).len(),
                ) == bool_chars(true) {
                    assert(s@.subrange(pos as int, pos + 4) == "true"@);
                    assert(false);
                }
            }
            Some((false, end))
        },
        None => {
            None
        },
    }
}

/// Reads one encoded record at `pos`. Succeeds exactly when a record with a
/// representable title is encoded there, and then returns its fields
/// verbatim together with the end position.

/// Reads the opening of an encoded record: the user key and value, the id
/// key and value, and the title key, leaving `pos` at the first title
/// character.
#[verifier::rlimit(100)]
fn parse_head(s: &str, pos: usize) -> (r: Option<(u64, u64, usize)>)
    requires
        pos <= s@.len(),
    ensures
        r matches Some(p) ==> {
            &&& pos < p.2 <= s@.len()
            &&& s@.subrange(pos as int, p.2 as int) == key_user() + dec_digits(p.0 as nat)
                + key_id() + dec_digits(p.1 as nat) + key_title()
        },
        forall|t: TodoV|
            #[trigger] todo_encoded_at(s@, pos as int, t) ==> (r matches Some(p) && p.0
                == t.user_id && p.1 == t.id && p.2 == pos + off5(t)),
{
    proof {
        reveal_strlit("{\"userId\":");
        reveal_strlit(",\"id\":");
        reveal_strlit(",\"title\":\"");
    }
    let p1 = match expect_lit(s, pos, "{\"userId\":") {
        Some(e) => e,
        None => {
            proof {
                assert forall|t: TodoV| #[trigger]
                    todo_encoded_at(s@, pos as int, t) implies false by {
                    lemma_todo_layout(s@, pos as int, t);
                }
            }
            return None;
        },
    };
    let (uid, p2) = match scan_number(s, p1) {
        Some(p) => p,
        None => {
            proof {
                assert forall|t: TodoV| #[trigger]
                    todo_encoded_at(s@, pos as int, t) implies false by {
                    lemma_todo_layout(s@, pos as int, t);
                    assert(s@[pos + off2(t)] == key_id()[0]);
                }
            }
            return None;
        },
    };
    let p3 = match expect_lit(s, p2, ",\"id\":") {
        Some(e) => e,
        None => {
            proof {
                assert forall|t: TodoV| #[trigger]
                    todo_encoded_at(s@, pos as int, t) implies false by {
                    lemma_todo_layout(s@, pos as int, t);
                    assert(s@[pos + off2(t)] == key_id()[0]);
                    assert(uid == t.user_id && p2 == pos + off2(t));
                }
            }
            return None;
        },
    };
    let (idv, p4) = match scan_number(s, p3) {
        Some(p) => p,
        None => {
            proof {
                assert forall|t: TodoV| #[trigger]
                    todo_encoded_at(s@, pos as int, t) implies false by {
                    lemma_todo_layout(s@, pos as int, t);
                    assert(s@[pos + off2(t)] == key_id()[0]);
                    assert(s@[pos + off4(t)] == key_title()[0]);
                    assert(uid == t.user_id && p2 == pos + off2(t));
                    assert(p3 == pos + off3(t));
                }
            }
            return None;
        },
    };
    let p5 = match expect_lit(s, p4, ",\"title\":\"") {
        Some(e) => e,
        None => {
            proof {
                assert forall|t: TodoV| #[trigger]
                    todo_encoded_at(s@, pos as int, t) implies false by {
                    lemma_todo_layout(s@, pos as int, t);
                    assert(s@[pos + off2(t)] == key_id()[0]);
                    assert(s@[pos + off4(t)] == key_title()[0]);
                    assert(uid == t.user_id && p2 == pos + off2(t));
                    assert(p3 == pos + off3(t));
                    assert(idv == t.id && p4 == pos + off4(t));
                }
            }
            return None;
        },
    };
    proof {
        assert(s@.subrange(pos as int, p5 as int) == key_user() + dec_digits(uid as nat) + key_id()
            + dec_digits(idv as nat) + key_title()) by {
            assert(s@.subrange(pos as int, p2 as int) =~= s@.subrange(pos as int, p1 as int)
                + s@.subrange(p1 as int, p2 as int));
            assert(s@.subrange(pos as int, p2 as int) == key_user() + dec_digits(uid as nat));
            assert(s@.subrange(pos as int, p3 as int) =~= s@.subrange(pos as int, p2 as int)
                + s@.subrange(p2 as int, p3 as int));
            assert(s@.subrange(pos as int, p3 as int) == key_user() + dec_digits(uid as nat)
                + key_id());
            assert(s@.subrange(pos as int, p4 as int) =~= s@.subrange(pos as int, p3 as int)
                + s@.subrange(p3 as int, p4 as int));
            assert(s@.subrange(pos as int, p4 as int) == key_user() + dec_digits(uid as nat)
                + key_id() + dec_digits(idv as nat));
            assert(s@.subrange(pos as int, p5 as int) =~= s@.subrange(pos as int, p4 as int)
                + s@.subrange(p4 as int, p5 as int));
        }
        assert forall|t: TodoV| #[trigger]
            todo_encoded_at(s@, pos as int, t) implies uid == t.user_id && idv == t.id && p5 == pos
            + off5(t) by {
            lemma_todo_layout(s@, pos as int, t);
            assert(s@[pos + off2(t)] == key_id()[0]);
            assert(s@[pos + off4(t)] == key_title()[0]);
            assert(uid == t.user_id && p2 == pos + off2(t));
            assert(p3 == pos + off3(t));
            assert(idv == t.id && p4 == pos + off4(t));
        }
    }
    Some((uid, idv, p5))
}

/// Reads one encoded record at `pos`. Succeeds exactly when a record with a
/// representable title is encoded there, and then returns its fields
/// verbatim together with the end position.
#[verifier::rlimit(100)]
pub fn parse_todo_at(s: &str, pos: usize) -> (r: Option<(crate::Todo, usize)>)
    requires
        pos <= s@.len(),
    ensures
        r matches Some(p) ==> {
            &&& pos < p.1 <= s@.len()
            &&& valid_todo(p.0.deep_view())
            &&& p.1 == pos + encode_todo(p.0.deep_view()).len()
            &&& s@.subrange(pos as int, p.1 as int) == encode_todo(p.0.deep_view())
        },
        forall|t: TodoV|
            #[trigger] todo_encoded_at(s@, pos as int, t) ==> (r matches Some(p)
                && p.0.deep_view() == t && p.1 == pos + encode_todo(t).len()),
{
    proof {
        reveal_strlit("\",\"completed\":");
        reveal_strlit("}");
    }
    let (uid, idv, p5) = match parse_head(s, pos) {
        Some(p) => p,
        None => {
            return None;
        },
    };
    let (title, p6) = match scan_title(s, p5) {
        Some(p) => p,
        None => {
            proof {
                assert forall|t: TodoV| #[trigger]
                    todo_encoded_at(s@, pos as int, t) implies false by {
                    lemma_todo_layout(s@, pos as int, t);
                    assert(s@[pos + off6(t)] == key_completed()[0]);
                    assert(valid_title(t.title));
                    assert(p5 == pos + off5(t));
                    assert(p5 + t.title.len() < s@.len());
                    assert(s@.subrange(p5 as int, p5 + t.title.len()) == t.title);
                    assert(s@[p5 + t.title.len()] == '"');
                }
            }
            return None;
        },
    };
    let p7 = match expect_lit(s, p6, "\",\"completed\":") {
        Some(e) => e,
        None => {
            proof {
                assert forall|t: TodoV| #[trigger]
                    todo_encoded_at(s@, pos as int, t) implies false by {
                    lemma_todo_layout(s@, pos as int, t);
                    assert(s@[pos + off6(t)] == key_completed()[0]);
                    assert(p5 == pos + off5(t));
                    assert(title@ == t.title && p6 == pos + off6(t));
                }
            }
            return None;
        },
    };
    let (done, p8) = match parse_bool(s, p7) {
        Some(p) => p,
        None => {
            proof {
                assert forall|t: TodoV| #[trigger]
                    todo_encoded_at(s@, pos as int, t) implies false by {
                    lemma_todo_layout(s@, pos as int, t);
                    assert(s@[pos + off6(t)] == key_completed()[0]);
                    assert(p5 == pos + off5(t));
                    assert(title@ == t.title && p6 == pos + off6(t));
                    assert(p7 == pos + off7(t));
                    assert(s@.subrange(p7 as int, p7 + bool_chars(t.completed).len())
                        == bool_chars(t.completed));
                }
            }
            return None;
        },
    };
    let p9 = match expect_lit(s, p8, "}") {
        Some(e) => e,
        None => {
            proof {
                assert forall|t: TodoV| #[trigger]
                    todo_encoded_at(s@, pos as int, t) implies false by {
                    lemma_todo_layout(s@, pos as int, t);
                    assert(s@[pos + off6(t)] == key_completed()[0]);
                    assert(p5 == pos + off5(t));
                    assert(title@ == t.title && p6 == pos + off6(t));
                    assert(p7 == pos + off7(t));
                    assert(done == t.completed && p8 == pos + off8(t));
                }
            }
            return None;
        },
    };
    let todo = crate::Todo { user_id: uid, id: idv, title, completed: done };
    proof {
        let dv = todo.deep_view();
        assert(s@.subrange(pos as int, p9 as int) == encode_todo(dv) && p9 == pos + encode_todo(
            dv,
        ).len()) by {
            assert(s@.subrange(pos as int, p6 as int) =~= s@.subrange(pos as int, p5 as int)
                + s@.subrange(p5 as int, p6 as int));
            assert(s@.subrange(pos as int, p6 as int) == key_user() + dec_digits(uid as nat)
                + key_id() + dec_digits(idv as nat) + key_title() + todo.title@);
            assert(s@.subrange(pos as int, p7 as int) =~= s@.subrange(pos as int, p6 as int)
                + s@.subrange(p6 as int, p7 as int));
            assert(s@.subrange(pos as int, p7 as int) == key_user() + dec_digits(uid as nat)
                + key_id() + dec_digits(idv as nat) + key_title() + todo.title@
                + key_completed());
            assert(s@.subrange(pos as int, p8 as int) =~= s@.subrange(pos as int, p7 as int)
                + s@.subrange(p7 as int, p8 as int));
            assert(s@.subrange(pos as int, p8 as int) == key_user() + dec_digits(uid as nat)
                + key_id() + dec_digits(idv as nat) + key_title() + todo.title@ + key_completed()
                + bool_chars(done));
            assert(s@.subrange(pos as int, p9 as int) =~= s@.subrange(pos as int, p8 as int)
                + s@.subrange(p8 as int, p9 as int));
            assert(s@.subrange(pos as int, p9 as int) == encode_todo(dv));
        }
        assert forall|t: TodoV| #[trigger]
            todo_encoded_at(s@, pos as int, t) implies todo.deep_view() == t && p9 == pos
            + encode_todo(t).len() by {
            lemma_todo_layout(s@, pos as int, t);
            assert(s@[pos + off6(t)] == key_completed()[0]);
            assert(p5 == pos + off5(t));
            assert(title@ == t.title && p6 == pos + off6(t));
            assert(p7 == pos + off7(t));
            assert(done == t.completed && p8 == pos + off8(t));
            assert(p9 == pos + off9(t));
            assert(todo.deep_view() =~= t);
        }
    }
    Some((todo, p9))
}


/// Decodes a single-item response: one encoded record and nothing else.
/// Succeeds exactly on the encoding of a record with a representable title,
/// and then returns its fields verbatim.
pub fn decode_todo(s: &str) -> (r: Option<crate::Todo>)
    ensures
        r matches Some(t) ==> valid_todo(t.deep_view()) && s@ == encode_todo(t.deep_view()),
        forall|t: TodoV|
            valid_todo(t) && s@ == #[trigger] encode_todo(t) ==> (r matches Some(p)
                && p.deep_view() == t),
{
    proof {
        assert forall|t: TodoV|
            valid_todo(t) && s@ == #[trigger] encode_todo(t) implies todo_encoded_at(
            s@,
            0,
            t,
        ) by {
            assert(s@.subrange(0, encode_todo(t).len() as int) =~= encode_todo(t));
        }
    }
    match parse_todo_at(s, 0) {
        Some((t, end)) => {
            if end == s.unicode_len() {
                proof {
                    assert(s@.subrange(0, end as int) =~= s@);
                }
                Some(t)
            } else {
                None
            }
        },
        None => None,
    }
}

/// The collection `ts` is what `s` encodes.
pub open spec fn todos_encoded(s: Seq<char>, ts: Seq<TodoV>) -> bool {
    valid_todos(ts) && s == encode_todos(ts)
}

/// What follows once `k` records of `ts` and their separators have been
/// read: the record at `k`, the remaining records with their commas, and
/// the closing bracket.
pub open spec fn tail_from(ts: Seq<TodoV>, k: int) -> Seq<char>
    recommends
        0 <= k < ts.len(),
{
    encode_todo(ts[k]) + encode_rest(ts.subrange(k + 1, ts.len() as int)) + seq![']']
}

/// A non-empty encoded collection opens with its first record right after
/// the bracket.
pub proof fn lemma_tail_zero(ts: Seq<TodoV>)
    requires
        ts.len() > 0,
    ensures
        encode_todos(ts).subrange(1, encode_todos(ts).len() as int) == tail_from(ts, 0),
{
    assert(ts.drop_first() =~= ts.subrange(1, ts.len() as int));
    assert(encode_todos(ts).subrange(1, encode_todos(ts).len() as int) =~= tail_from(ts, 0));
}

/// How the text after one record continues, depending on whether records
/// remain.
pub proof fn lemma_loop_step(s: Seq<char>, pos: int, ts: Seq<TodoV>, k: int)
    requires
        valid_todos(ts),
        0 <= k < ts.len(),
        0 <= pos,
        pos + tail_from(ts, k).len() == s.len(),
        s.subrange(pos, s.len() as int) == tail_from(ts, k),
    ensures
        todo_encoded_at(s, pos, ts[k]),
        k == ts.len() - 1 ==> pos + encode_todo(ts[k]).len() + 1 == s.len() && s.subrange(
            pos + encode_todo(ts[k]).len(),
            s.len() as int,
        ) == seq![']'],
        k < ts.len() - 1 ==> s.subrange(pos + encode_todo(ts[k]).len(), s.len() as int)
            == seq![','] + tail_from(ts, k + 1) && s[pos + encode_todo(ts[k]).len()] == ',',
{
    let e = encode_todo(ts[k]);
    let sub1 = ts.subrange(k + 1, ts.len() as int);
    if k == ts.len() - 1 {
        assert(sub1 =~= Seq::<TodoV>::empty());
        assert(encode_rest(Seq::<TodoV>::empty()) == Seq::<char>::empty());
        assert(tail_from(ts, k) =~= e + seq![']']);
        assert(s.subrange(pos, pos + e.len() + seq![']'].len()) == e + seq![']']);
        lemma_seg_split(s, pos, e, seq![']']);
    } else {
        assert(sub1.len() > 0);
        assert(sub1[0] == ts[k + 1]);
        assert(sub1.drop_first() =~= ts.subrange(k + 2, ts.len() as int));
        assert(encode_rest(sub1) == seq![','] + encode_todo(ts[k + 1]) + encode_rest(
            ts.subrange(k + 2, ts.len() as int),
        ));
        let rest = seq![','] + tail_from(ts, k + 1);
        assert(tail_from(ts, k) =~= e + rest);
        assert(s.subrange(pos, pos + e.len() + rest.len()) == e + rest);
        lemma_seg_split(s, pos, e, rest);
        assert(s[pos + e.len()] == rest[0]);
    }
    assert(s.subrange(pos, pos + e.len()) == e) by {
        if k == ts.len() - 1 {
        } else {
        }
    }
}

/// Decodes a collection response. Succeeds exactly on the encoding of a
/// collection of records with representable titles, and then returns those
/// records verbatim, in wire order.
#[verifier::rlimit(100)]
pub fn decode_todos(s: &str) -> (r: Option<Vec<crate::Todo>>)
    ensures
        r matches Some(v) ==> valid_todos(v.deep_view()) && s@ == encode_todos(v.deep_view()),
        forall|ts: Seq<TodoV>|
            #[trigger] todos_encoded(s@, ts) ==> (r matches Some(v) && v.deep_view() == ts),
{
    proof {
        reveal_strlit("[");
        reveal_strlit("]");
        reveal_strlit(",");
        reveal_strlit("{\"userId\":");
        assert("["@ =~= seq!['[']);
        assert("]"@ =~= seq![']']);
        assert(","@ =~= seq![',']);
    }
    let n = s.unicode_len();
    let p1 = match expect_lit(s, 0, "[") {
        Some(e) => e,
        None => {
            proof {
                assert forall|ts: Seq<TodoV>| #[trigger] todos_encoded(s@, ts) implies false by {
                    assert(s@.subrange(0, 1) =~= "["@);
                }
            }
            return None;
        },
    };
    match expect_lit(s, p1, "]") {
        Some(e) => {
            if e == n {
                let empty: Vec<crate::Todo> = Vec::new();
                proof {
                    assert(empty.deep_view().len() == 0);
                    assert(encode_items(empty.deep_view()) == Seq::<char>::empty());
                    assert(s@.len() == 2);
                    assert(s@.subrange(0, 1)[0] == '[');
                    assert(s@.subrange(1, 2)[0] == ']');
                    assert(s@ =~= encode_todos(empty.deep_view()));
                    assert forall|ts: Seq<TodoV>| #[trigger]
                        todos_encoded(s@, ts) implies empty.deep_view() == ts by {
                        if ts.len() > 0 {
                            lemma_tail_zero(ts);
                            assert(s@[1] == tail_from(ts, 0)[0]);
                            assert(tail_from(ts, 0)[0] == key_user()[0]);
                            assert(s@[1] == ']');
                            assert(false);
                        }
                        assert(empty.deep_view() =~= ts);
                    }
                }
                return Some(empty);
            } else {
                proof {
                    assert forall|ts: Seq<TodoV>| #[trigger]
                        todos_encoded(s@, ts) implies false by {
                        if ts.len() > 0 {
                            lemma_tail_zero(ts);
                            assert(s@[1] == tail_from(ts, 0)[0]);
                            assert(tail_from(ts, 0)[0] == key_user()[0]);
                            assert(s@[1] == ']');
                        } else {
                            assert(s@.len() == 2);
                        }
                    }
                }
                return None;
            }
        },
        None => {},
    }
    let mut acc: Vec<crate::Todo> = Vec::new();
    let mut pos: usize = p1;
    proof {
        assert(s@.subrange(0, pos as int) == seq!['['] + encode_items(acc.deep_view())) by {
            assert(s@.subrange(0, pos as int) =~= seq!['['] + encode_items(acc.deep_view()));
        }
        assert forall|ts: Seq<TodoV>| #[trigger]
            todos_encoded(s@, ts) implies ts.len() > 0 && acc.deep_view() == ts.subrange(0, 0)
            && s@.subrange(pos as int, s@.len() as int) == tail_from(ts, 0) by {
            if ts.len() == 0 {
                assert(s@.len() == 2);
                assert(s@.subrange(1, 2) =~= "]"@);
                assert(false);
            }
            lemma_tail_zero(ts);
            assert(acc.deep_view() =~= ts.subrange(0, 0));
        }
    }
    loop
        invariant
            n == s@.len(),
            1 <= pos <= n,
            valid_todos(acc.deep_view()),
            acc.deep_view().len() == acc@.len(),
            s@.subrange(0, pos as int) == seq!['['] + encode_items(acc.deep_view()) + (
            if acc@.len() == 0 {
                Seq::<char>::empty()
            } else {
                seq![',']
            }),
            forall|ts: Seq<TodoV>| #[trigger]
                todos_encoded(s@, ts) ==> {
                    &&& (acc@.len() as int) < ts.len()
                    &&& acc.deep_view() == ts.subrange(0, acc@.len() as int)
                    &&& s@.subrange(pos as int, n as int) == tail_from(ts, acc@.len() as int)
                },
        decreases n - pos,
    {
        proof {
            reveal_strlit("]");
            reveal_strlit(",");
            assert("]"@ =~= seq![']']);
            assert(","@ =~= seq![',']);
        }
        let ghost prev_dv = acc.deep_view();
        let ghost k = acc@.len() as int;
        let (t, p2) = match parse_todo_at(s, pos) {
            Some(p) => p,
            None => {
                proof {
                    assert forall|ts: Seq<TodoV>| #[trigger]
                        todos_encoded(s@, ts) implies false by {
                        lemma_loop_step(s@, pos as int, ts, k);
                    }
                }
                return None;
            },
        };
        acc.push(t);
        proof {
            assert(acc.deep_view() =~= prev_dv.push(t.deep_view()));
            lemma_items_push(prev_dv, t.deep_view());
            assert(s@.subrange(0, p2 as int) == seq!['['] + encode_items(acc.deep_view())) by {
                assert(s@.subrange(0, p2 as int) =~= s@.subrange(0, pos as int) + s@.subrange(
                    pos as int,
                    p2 as int,
                ));
            }
        }
        match expect_lit(s, p2, "]") {
            Some(e) => {
                if e == n {
                    proof {
                        assert(s@ =~= s@.subrange(0, p2 as int) + s@.subrange(p2 as int, n as int));
                        assert(s@.subrange(p2 as int, (p2 + 1) as int)[0] == ']');
                        assert(s@[p2 as int] == ']');
                        assert(s@.subrange(p2 as int, n as int) =~= seq![']']);
                        assert(s@ =~= encode_todos(acc.deep_view()));
                        assert forall|ts: Seq<TodoV>| #[trigger]
                            todos_encoded(s@, ts) implies acc.deep_view() == ts by {
                            lemma_loop_step(s@, pos as int, ts, k);
                            assert(t.deep_view() == ts[k] && p2 == pos + encode_todo(ts[k]).len());
                            if k < ts.len() - 1 {
                                assert(s@[p2 as int] == ',');
                                assert(s@.subrange(p2 as int, p2 + 1)[0] == ']');
                                assert(false);
                            }
                            assert(acc.deep_view() =~= ts);
                        }
                    }
                    return Some(acc);
                } else {
                    proof {
                        assert forall|ts: Seq<TodoV>| #[trigger]
                            todos_encoded(s@, ts) implies false by {
                            lemma_loop_step(s@, pos as int, ts, k);
                            assert(t.deep_view() == ts[k] && p2 == pos + encode_todo(
                                ts[k],
                            ).len());
                            if k < ts.len() - 1 {
                                assert(s@[p2 as int] == ',');
                                assert(s@.subrange(p2 as int, p2 + 1)[0] == ']');
                                assert(false);
                            } else {
                                assert(p2 + 1 == n);
                            }
                        }
                    }
                    return None;
                }
            },
            None => {},
        }
        let p3 = match expect_lit(s, p2, ",") {
            Some(e) => e,
            None => {
                proof {
                    assert forall|ts: Seq<TodoV>| #[trigger]
                        todos_encoded(s@, ts) implies false by {
                        lemma_loop_step(s@, pos as int, ts, k);
                        assert(t.deep_view() == ts[k] && p2 == pos + encode_todo(ts[k]).len());
                        if k == ts.len() - 1 {
                            assert(s@.subrange(p2 as int, p2 + 1) =~= seq![']']);
                            assert(s@.subrange(p2 as int, p2 + 1) == "]"@);
                            assert(false);
                        } else {
                            assert(s@.subrange(p2 as int, p2 + 1) =~= seq![',']);
                            assert(s@.subrange(p2 as int, p2 + 1) == ","@);
                        }
                    }
                }
                return None;
            },
        };
        proof {
            assert(s@.subrange(0, p3 as int) == seq!['['] + encode_items(acc.deep_view())
                + seq![',']) by {
                assert(s@.subrange(0, p3 as int) =~= s@.subrange(0, p2 as int) + s@.subrange(
                    p2 as int,
                    p3 as int,
                ));
                assert(s@.subrange(p2 as int, p3 as int) =~= seq![',']);
            }
            assert forall|ts: Seq<TodoV>| #[trigger]
                todos_encoded(s@, ts) implies (acc@.len() as int) < ts.len() && acc.deep_view()
                == ts.subrange(0, acc@.len() as int) && s@.subrange(p3 as int, n as int)
                == tail_from(ts, acc@.len() as int) by {
                lemma_loop_step(s@, pos as int, ts, k);
                assert(t.deep_view() == ts[k] && p2 == pos + encode_todo(ts[k]).len());
                if k == ts.len() - 1 {
                    assert(s@.subrange(p2 as int, p2 + 1) =~= seq![']']);
                    assert(s@.subrange(p2 as int, p2 + 1) == "]"@);
                    assert(false);
                }
                assert(s@.subrange(p2 as int, n as int) == seq![','] + tail_from(ts, k + 1));
                assert(n - p2 == (seq![','] + tail_from(ts, k + 1)).len());
                assert(s@.subrange(p2 as int, p2 + 1 + tail_from(ts, k + 1).len()) == seq![',']
                    + tail_from(ts, k + 1));
                lemma_seg_split(s@, p2 as int, seq![','], tail_from(ts, k + 1));
                assert(s@.subrange(p3 as int, n as int) == tail_from(ts, k + 1));
                assert(acc.deep_view() =~= ts.subrange(0, k + 1));
            }
        }
        pos = p3;
    }
}


/// A JSON insignificant-whitespace character.
pub open spec fn is_ws(c: char) -> bool {
    c == ' ' || c == '\n' || c == '\r' || c == '\t'
}

/// Whether a scan of `s` that starts inside a quoted string exactly when
/// `in_str` holds ends inside one: each quote toggles the state, every
/// other character keeps it.
pub open spec fn str_state(s: Seq<char>, in_str: bool) -> bool
    decreases s.len(),
{
    if s.len() == 0 {
        in_str
    } else {
        str_state(s.drop_first(), if s[0] == '"' { !in_str } else { in_str })
    }
}

/// `s` with insignificant whitespace removed: whitespace outside quoted
/// strings is dropped, every other character is kept.
pub open spec fn strip_from(s: Seq<char>, in_str: bool) -> Seq<char>
    decreases s.len(),
{
    if s.len() == 0 {
        Seq::empty()
    } else {
        let c = s[0];
        let next = if c == '"' { !in_str } else { in_str };
        if !in_str && is_ws(c) {
            strip_from(s.drop_first(), next)
        } else {
            seq![c] + strip_from(s.drop_first(), next)
        }
    }
}

/// Stripping distributes over concatenation, threading the string state.
pub proof fn lemma_strip_concat(a: Seq<char>, b: Seq<char>, st: bool)
    ensures
        str_state(a + b, st) == str_state(b, str_state(a, st)),
        strip_from(a + b, st) == strip_from(a, st) + strip_from(b, str_state(a, st)),
    decreases a.len(),
{
    if a.len() == 0 {
        assert(a + b =~= b);
        assert(strip_from(a, st) == Seq::<char>::empty());
        assert(str_state(a, st) == st);
        assert(strip_from(a + b, st) =~= strip_from(a, st) + strip_from(b, st));
    } else {
        let c = a[0];
        let next = if c == '"' {
            !st
        } else {
            st
        };
        lemma_strip_concat(a.drop_first(), b, next);
        assert((a + b).drop_first() =~= a.drop_first() + b);
        assert((a + b)[0] == c);
        assert(str_state(a, st) == str_state(a.drop_first(), next));
        if !st && is_ws(c) {
            assert(strip_from(a + b, st) == strip_from(a.drop_first() + b, next));
            assert(strip_from(a, st) == strip_from(a.drop_first(), next));
        } else {
            assert(strip_from(a + b, st) == seq![c] + strip_from(a.drop_first() + b, next));
            assert(strip_from(a + b, st) =~= strip_from(a, st) + strip_from(
                b,
                str_state(a, st),
            ));
        }
    }
}

/// Removes insignificant whitespace from a response text, leaving quoted
/// strings intact.
pub fn strip_ws(s: &str) -> (r: String)
    ensures
        r@ == strip_from(s@, false),
{
    let n = s.unicode_len();
    let mut out = String::new();
    let mut in_str = false;
    let mut i: usize = 0;
    while i < n
        invariant
            i <= n,
            n == s@.len(),
            in_str == str_state(s@.subrange(0, i as int), false),
            out@ == strip_from(s@.subrange(0, i as int), false),
        decreases n - i,
    {
        let c = s.get_char(i);
        let keep = in_str || !(c == ' ' || c == '\n' || c == '\r' || c == '\t');
        if keep {
            out.append(s.substring_char(i, i + 1));
        }
        proof {
            let pre = s@.subrange(0, i as int);
            let one = seq![c];
            lemma_strip_concat(pre, one, false);
            assert(s@.subrange(0, i + 1) =~= pre + one);
            assert(one.len() == 1 && one[0] == c);
            assert(one.drop_first() =~= Seq::<char>::empty());
            assert(str_state(Seq::<char>::empty(), true) == true);
            assert(str_state(Seq::<char>::empty(), false) == false);
            assert(strip_from(Seq::<char>::empty(), true) == Seq::<char>::empty());
            assert(strip_from(Seq::<char>::empty(), false) == Seq::<char>::empty());
            let st1 = str_state(pre, false);
            assert(str_state(one, st1) == (if c == '"' {
                !st1
            } else {
                st1
            }));
            if !st1 && is_ws(c) {
                assert(strip_from(one, st1) =~= Seq::<char>::empty());
            } else {
                assert(strip_from(one, st1) =~= one);
            }
            assert(s@.subrange(i as int, i + 1)[0] == c);
            assert(s@.subrange(i as int, i + 1) =~= one);
        }
        in_str = if in_str {
            c != '"'
        } else {
            c == '"'
        };
        i = i + 1;
    }
    proof {
        assert(s@.subrange(0, n as int) =~= s@);
    }
    out
}

/// Decodes a collection response as the transport delivers it:
/// insignificant whitespace may stand anywhere outside quoted strings, and
/// each record's members may come in any order. A success means the text,
/// with insignificant whitespace removed, is a rendering of the returned
/// records; every such text is accepted with the fields copied verbatim,
/// in wire order.
pub fn decode_todos_json(s: &str) -> (r: Option<Vec<crate::Todo>>)
    ensures
        r matches Some(v) ==> valid_todos(v.deep_view()) && (exists|ps: Seq<Seq<int>>|
            #[trigger] todos_rendered(strip_from(s@, false), v.deep_view(), ps)),
        forall|ts: Seq<TodoV>, ps: Seq<Seq<int>>|
            #[trigger] todos_rendered(strip_from(s@, false), ts, ps) ==> (r matches Some(v)
                && v.deep_view() == ts),
{
    let stripped = strip_ws(s);
    decode_todos_any(stripped.as_str())
}

/// Decodes a single-item response with the same whitespace and member
/// order tolerance as `decode_todos_json`.
pub fn decode_todo_json(s: &str) -> (r: Option<crate::Todo>)
    ensures
        r matches Some(t) ==> valid_todo(t.deep_view()) && (exists|p: Seq<int>|
            is_perm4(p) && strip_from(s@, false) == #[trigger] rtodo(t.deep_view(), p)),
        forall|t: TodoV, p: Seq<int>|
            (valid_todo(t) && is_perm4(p) && strip_from(s@, false) == #[trigger] rtodo(t, p)) ==> (
            r matches Some(q) && q.deep_view() == t),
{
    let stripped = strip_ws(s);
    decode_todo_any(stripped.as_str())
}


/// Text with neither quotes nor whitespace strips to itself and keeps the
/// string state.
pub proof fn lemma_strip_plain(s: Seq<char>, st: bool)
    requires
        forall|i: int| 0 <= i < s.len() ==> (#[trigger] s[i]) != '"' && !is_ws(s[i]),
    ensures
        strip_from(s, st) == s,
        str_state(s, st) == st,
    decreases s.len(),
{
    if s.len() > 0 {
        assert(forall|i: int|
            0 <= i < s.drop_first().len() ==> #[trigger] s.drop_first()[i] == s[i + 1]);
        lemma_strip_plain(s.drop_first(), st);
        assert(strip_from(s, st) =~= s);
    } else {
        assert(strip_from(s, st) =~= s);
    }
}

/// Inside a quoted string every character is kept, and without a quote the
/// scan stays inside the string.
pub proof fn lemma_strip_instring(s: Seq<char>)
    requires
        forall|i: int| 0 <= i < s.len() ==> (#[trigger] s[i]) != '"',
    ensures
        strip_from(s, true) == s,
        str_state(s, true) == true,
    decreases s.len(),
{
    if s.len() > 0 {
        assert(forall|i: int|
            0 <= i < s.drop_first().len() ==> #[trigger] s.drop_first()[i] == s[i + 1]);
        lemma_strip_instring(s.drop_first());
        assert(strip_from(s, true) =~= s);
    } else {
        assert(strip_from(s, true) =~= s);
    }
}

/// A quote is kept and toggles the string state.
pub proof fn lemma_strip_quote(st: bool)
    ensures
        strip_from(seq!['"'], st) == seq!['"'],
        str_state(seq!['"'], st) == !st,
{
    let q = seq!['"'];
    assert(q.len() == 1 && q[0] == '"');
    assert(q.drop_first() =~= Seq::<char>::empty());
    assert(strip_from(Seq::<char>::empty(), !st) == Seq::<char>::empty());
    assert(str_state(Seq::<char>::empty(), !st) == !st);
    assert(strip_from(q, st) =~= q);
}

/// The canonical digits of a number hold neither quotes nor whitespace.
pub proof fn lemma_digits_plain(n: nat)
    ensures
        forall|i: int|
            0 <= i < dec_digits(n).len() ==> (#[trigger] dec_digits(n)[i]) != '"' && !is_ws(
                dec_digits(n)[i],
            ),
{
    crate::num::lemma_dec_digits_props(n);
    assert forall|i: int|
        0 <= i < dec_digits(n).len() implies (#[trigger] dec_digits(n)[i]) != '"' && !is_ws(
        dec_digits(n)[i],
    ) by {
        assert(crate::num::is_digit(dec_digits(n)[i]));
    }
}

/// The object-opening key strips to itself, ending outside a string.
pub proof fn lemma_strip_key_user()
    ensures
        strip_from(key_user(), false) == key_user(),
        str_state(key_user(), false) == false,
{
    reveal_strlit("{\"userId\":");
    let a = seq!['{'];
    let q = seq!['"'];
    let mid = seq!['u', 's', 'e', 'r', 'I', 'd'];
    let col = seq![':'];
    assert(key_user() =~= a + q + mid + q + col);
    lemma_strip_plain(a, false);
    lemma_strip_quote(false);
    lemma_strip_concat(a, q, false);
    lemma_strip_instring(mid);
    lemma_strip_concat(a + q, mid, false);
    lemma_strip_quote(true);
    lemma_strip_concat(a + q + mid, q, false);
    lemma_strip_plain(col, false);
    lemma_strip_concat(a + q + mid + q, col, false);
    assert(strip_from(key_user(), false) =~= key_user());
}

/// The id key strips to itself, ending outside a string.
pub proof fn lemma_strip_key_id()
    ensures
        strip_from(key_id(), false) == key_id(),
        str_state(key_id(), false) == false,
{
    reveal_strlit(",\"id\":");
    let a = seq![','];
    let q = seq!['"'];
    let mid = seq!['i', 'd'];
    let col = seq![':'];
    assert(key_id() =~= a + q + mid + q + col);
    lemma_strip_plain(a, false);
    lemma_strip_quote(false);
    lemma_strip_concat(a, q, false);
    lemma_strip_instring(mid);
    lemma_strip_concat(a + q, mid, false);
    lemma_strip_quote(true);
    lemma_strip_concat(a + q + mid, q, false);
    lemma_strip_plain(col, false);
    lemma_strip_concat(a + q + mid + q, col, false);
    assert(strip_from(key_id(), false) =~= key_id());
}

/// The title key strips to itself, ending inside the title string.
pub proof fn lemma_strip_key_title()
    ensures
        strip_from(key_title(), false) == key_title(),
        str_state(key_title(), false) == true,
{
    reveal_strlit(",\"title\":\"");
    let a = seq![','];
    let q = seq!['"'];
    let mid = seq!['t', 'i', 't', 'l', 'e'];
    let col = seq![':'];
    assert(key_title() =~= a + q + mid + q + col + q);
    lemma_strip_plain(a, false);
    lemma_strip_quote(false);
    lemma_strip_concat(a, q, false);
    lemma_strip_instring(mid);
    lemma_strip_concat(a + q, mid, false);
    lemma_strip_quote(true);
    lemma_strip_concat(a + q + mid, q, false);
    lemma_strip_plain(col, false);
    lemma_strip_concat(a + q + mid + q, col, false);
    lemma_strip_quote(false);
    lemma_strip_concat(a + q + mid + q + col, q, false);
    assert(strip_from(key_title(), false) =~= key_title());
}

/// The completed key closes the title string, strips to itself, and ends
/// outside a string.
pub proof fn lemma_strip_key_completed()
    ensures
        strip_from(key_completed(), true) == key_completed(),
        str_state(key_completed(), true) == false,
{
    reveal_strlit("\",\"completed\":");
    let q = seq!['"'];
    let a = seq![','];
    let mid = seq!['c', 'o', 'm', 'p', 'l', 'e', 't', 'e', 'd'];
    let col = seq![':'];
    assert(key_completed() =~= q + a + q + mid + q + col);
    lemma_strip_quote(true);
    lemma_strip_plain(a, false);
    lemma_strip_concat(q, a, true);
    lemma_strip_quote(false);
    lemma_strip_concat(q + a, q, true);
    lemma_strip_instring(mid);
    lemma_strip_concat(q + a + q, mid, true);
    lemma_strip_quote(true);
    lemma_strip_concat(q + a + q + mid, q, true);
    lemma_strip_plain(col, false);
    lemma_strip_concat(q + a + q + mid + q, col, true);
    assert(strip_from(key_completed(), true) =~= key_completed());
}


/// The canonical rendering of one record is whitespace-free: it strips to
/// itself and ends outside a string.
pub proof fn lemma_strip_encode_todo(t: TodoV)
    requires
        valid_todo(t),
    ensures
        strip_from(encode_todo(t), false) == encode_todo(t),
        str_state(encode_todo(t), false) == false,
{
    let d1 = dec_digits(t.user_id as nat);
    let d2 = dec_digits(t.id as nat);
    let b = bool_chars(t.completed);
    lemma_strip_key_user();
    lemma_digits_plain(t.user_id as nat);
    lemma_strip_plain(d1, false);
    lemma_strip_concat(key_user(), d1, false);
    lemma_strip_key_id();
    lemma_strip_concat(key_user() + d1, key_id(), false);
    lemma_digits_plain(t.id as nat);
    lemma_strip_plain(d2, false);
    lemma_strip_concat(key_user() + d1 + key_id(), d2, false);
    lemma_strip_key_title();
    lemma_strip_concat(key_user() + d1 + key_id() + d2, key_title(), false);
    lemma_strip_instring(t.title);
    lemma_strip_concat(key_user() + d1 + key_id() + d2 + key_title(), t.title, false);
    lemma_strip_key_completed();
    lemma_strip_concat(key_user() + d1 + key_id() + d2 + key_title() + t.title, key_completed(), false);
    reveal_strlit("true");
    reveal_strlit("false");
    assert(forall|i: int| 0 <= i < b.len() ==> (#[trigger] b[i]) != '"' && !is_ws(b[i]));
    lemma_strip_plain(b, false);
    lemma_strip_concat(
        key_user() + d1 + key_id() + d2 + key_title() + t.title + key_completed(),
        b,
        false,
    );
    reveal_strlit("}");
    assert(forall|i: int|
        0 <= i < key_close().len() ==> (#[trigger] key_close()[i]) != '"' && !is_ws(
            key_close()[i],
        ));
    lemma_strip_plain(key_close(), false);
    lemma_strip_concat(
        key_user() + d1 + key_id() + d2 + key_title() + t.title + key_completed() + b,
        key_close(),
        false,
    );
}

/// The canonical rendering of the records after the first is
/// whitespace-free.
pub proof fn lemma_strip_encode_rest(ts: Seq<TodoV>)
    requires
        valid_todos(ts),
    ensures
        strip_from(encode_rest(ts), false) == encode_rest(ts),
        str_state(encode_rest(ts), false) == false,
    decreases ts.len(),
{
    if ts.len() == 0 {
        assert(strip_from(encode_rest(ts), false) =~= encode_rest(ts));
    } else {
        let comma = seq![','];
        assert(forall|i: int|
            0 <= i < comma.len() ==> (#[trigger] comma[i]) != '"' && !is_ws(comma[i]));
        lemma_strip_plain(comma, false);
        lemma_strip_encode_todo(ts[0]);
        lemma_strip_concat(comma, encode_todo(ts[0]), false);
        assert(valid_todos(ts.drop_first())) by {
            assert(forall|i: int|
                0 <= i < ts.drop_first().len() ==> #[trigger] ts.drop_first()[i] == ts[i + 1]);
        }
        lemma_strip_encode_rest(ts.drop_first());
        lemma_strip_concat(comma + encode_todo(ts[0]), encode_rest(ts.drop_first()), false);
    }
}

/// The canonical rendering of a whole collection is whitespace-free, so the
/// whitespace-tolerant decoders accept every canonical encoding: the round
/// trip holds through them as well.
pub proof fn lemma_strip_encode_todos(ts: Seq<TodoV>)
    requires
        valid_todos(ts),
    ensures
        strip_from(encode_todos(ts), false) == encode_todos(ts),
{
    let open = seq!['['];
    let close = seq![']'];
    assert(forall|i: int| 0 <= i < open.len() ==> (#[trigger] open[i]) != '"' && !is_ws(open[i]));
    assert(forall|i: int|
        0 <= i < close.len() ==> (#[trigger] close[i]) != '"' && !is_ws(close[i]));
    lemma_strip_plain(open, false);
    if ts.len() == 0 {
        assert(strip_from(encode_items(ts), false) =~= encode_items(ts));
        assert(str_state(encode_items(ts), false) == false);
    } else {
        lemma_strip_encode_todo(ts[0]);
        assert(valid_todos(ts.drop_first())) by {
            assert(forall|i: int|
                0 <= i < ts.drop_first().len() ==> #[trigger] ts.drop_first()[i] == ts[i + 1]);
        }
        lemma_strip_encode_rest(ts.drop_first());
        lemma_strip_concat(encode_todo(ts[0]), encode_rest(ts.drop_first()), false);
    }
    lemma_strip_concat(open, encode_items(ts), false);
    lemma_strip_plain(close, false);
    lemma_strip_concat(open + encode_items(ts), close, false);
}


/// Member-name tokens of the wire object, colon included; the title's
/// opening value quote rides along with its name.
pub open spec fn name_user() -> Seq<char> {
    "\"userId\":"@
}

pub open spec fn name_id() -> Seq<char> {
    "\"id\":"@
}

pub open spec fn name_title() -> Seq<char> {
    "\"title\":\""@
}

pub open spec fn name_completed() -> Seq<char> {
    "\"completed\":"@
}

/// The wire text of member `k` of record `t`: 0 the user, 1 the id, 2 the
/// title, 3 the completed flag.
pub open spec fn mem(t: TodoV, k: int) -> Seq<char> {
    if k == 0 {
        name_user() + dec_digits(t.user_id as nat)
    } else if k == 1 {
        name_id() + dec_digits(t.id as nat)
    } else if k == 2 {
        name_title() + t.title + seq!['"']
    } else {
        name_completed() + bool_chars(t.completed)
    }
}

/// `p` lists each of the four members exactly once.
pub open spec fn is_perm4(p: Seq<int>) -> bool {
    &&& p.len() == 4
    &&& (forall|i: int| 0 <= i < 4 ==> 0 <= #[trigger] p[i] < 4)
    &&& (forall|i: int, j: int| 0 <= i < j < 4 ==> p[i] != p[j])
}

/// A rendering of record `t` with its members in the order `p`.
pub open spec fn rtodo(t: TodoV, p: Seq<int>) -> Seq<char> {
    seq!['{'] + mem(t, p[0]) + seq![','] + mem(t, p[1]) + seq![','] + mem(t, p[2]) + seq![',']
        + mem(t, p[3]) + seq!['}']
}

/// Offsets of the pieces of `rtodo(t, p)` from its start.
pub open spec fn ro1(t: TodoV, p: Seq<int>) -> int {
    1 + mem(t, p[0]).len() as int
}

pub open spec fn ro2(t: TodoV, p: Seq<int>) -> int {
    ro1(t, p) + 1
}

pub open spec fn ro3(t: TodoV, p: Seq<int>) -> int {
    ro2(t, p) + mem(t, p[1]).len() as int
}

pub open spec fn ro4(t: TodoV, p: Seq<int>) -> int {
    ro3(t, p) + 1
}

pub open spec fn ro5(t: TodoV, p: Seq<int>) -> int {
    ro4(t, p) + mem(t, p[2]).len() as int
}

pub open spec fn ro6(t: TodoV, p: Seq<int>) -> int {
    ro5(t, p) + 1
}

pub open spec fn ro7(t: TodoV, p: Seq<int>) -> int {
    ro6(t, p) + mem(t, p[3]).len() as int
}

pub open spec fn ro8(t: TodoV, p: Seq<int>) -> int {
    ro7(t, p) + 1
}

/// Record `t` is rendered with member order `p` in `s` starting at `pos`.
pub open spec fn todo_rendered_at(s: Seq<char>, pos: int, t: TodoV, p: Seq<int>) -> bool {
    &&& valid_todo(t)
    &&& is_perm4(p)
    &&& 0 <= pos
    &&& pos + rtodo(t, p).len() <= s.len()
    &&& s.subrange(pos, pos + rtodo(t, p).len()) == rtodo(t, p)
}

/// Where each piece of a rendered record lies in the surrounding text.
pub proof fn lemma_rtodo_layout(s: Seq<char>, pos: int, t: TodoV, p: Seq<int>)
    requires
        todo_rendered_at(s, pos, t, p),
    ensures
        ro8(t, p) == rtodo(t, p).len(),
        s.subrange(pos, pos + 1) == seq!['{'],
        s.subrange(pos + 1, pos + ro1(t, p)) == mem(t, p[0]),
        s.subrange(pos + ro1(t, p), pos + ro2(t, p)) == seq![','],
        s.subrange(pos + ro2(t, p), pos + ro3(t, p)) == mem(t, p[1]),
        s.subrange(pos + ro3(t, p), pos + ro4(t, p)) == seq![','],
        s.subrange(pos + ro4(t, p), pos + ro5(t, p)) == mem(t, p[2]),
        s.subrange(pos + ro5(t, p), pos + ro6(t, p)) == seq![','],
        s.subrange(pos + ro6(t, p), pos + ro7(t, p)) == mem(t, p[3]),
        s.subrange(pos + ro7(t, p), pos + ro8(t, p)) == seq!['}'],
{
    let m0 = mem(t, p[0]);
    let m1 = mem(t, p[1]);
    let m2 = mem(t, p[2]);
    let m3 = mem(t, p[3]);
    let x7 = seq!['{'] + m0 + seq![','] + m1 + seq![','] + m2 + seq![','] + m3;
    let x6 = seq!['{'] + m0 + seq![','] + m1 + seq![','] + m2 + seq![','];
    let x5 = seq!['{'] + m0 + seq![','] + m1 + seq![','] + m2;
    let x4 = seq!['{'] + m0 + seq![','] + m1 + seq![','];
    let x3 = seq!['{'] + m0 + seq![','] + m1;
    let x2 = seq!['{'] + m0 + seq![','];
    let x1 = seq!['{'] + m0;
    assert(s.subrange(pos, pos + x7.len() + seq!['}'].len()) == x7 + seq!['}']);
    lemma_seg_split(s, pos, x7, seq!['}']);
    assert(s.subrange(pos, pos + x6.len() + m3.len()) == x6 + m3);
    lemma_seg_split(s, pos, x6, m3);
    assert(s.subrange(pos, pos + x5.len() + seq![','].len()) == x5 + seq![',']);
    lemma_seg_split(s, pos, x5, seq![',']);
    assert(s.subrange(pos, pos + x4.len() + m2.len()) == x4 + m2);
    lemma_seg_split(s, pos, x4, m2);
    assert(s.subrange(pos, pos + x3.len() + seq![','].len()) == x3 + seq![',']);
    lemma_seg_split(s, pos, x3, seq![',']);
    assert(s.subrange(pos, pos + x2.len() + m1.len()) == x2 + m1);
    lemma_seg_split(s, pos, x2, m1);
    assert(s.subrange(pos, pos + x1.len() + seq![','].len()) == x1 + seq![',']);
    lemma_seg_split(s, pos, x1, seq![',']);
    assert(s.subrange(pos, pos + seq!['{'].len() + m0.len()) == seq!['{'] + m0);
    lemma_seg_split(s, pos, seq!['{'], m0);
}

/// The fields gathered so far while reading an object's members in wire
/// order.
pub struct Partial {
    pub user_id: Option<u64>,
    pub id: Option<u64>,
    pub title: Option<String>,
    pub completed: Option<bool>,
}

/// The mathematical image of a `Partial`.
#[verifier::ext_equal]
pub ghost struct PartialV {
    pub user_id: Option<u64>,
    pub id: Option<u64>,
    pub title: Option<Seq<char>>,
    pub completed: Option<bool>,
}

impl View for Partial {
    type V = PartialV;

    open spec fn view(&self) -> PartialV {
        PartialV {
            user_id: self.user_id,
            id: self.id,
            title: match self.title {
                Some(s) => Some(s@),
                None => None,
            },
            completed: self.completed,
        }
    }
}

/// Member `k` has not been read yet.
pub open spec fn slot_free(b: PartialV, k: int) -> bool {
    if k == 0 {
        b.user_id is None
    } else if k == 1 {
        b.id is None
    } else if k == 2 {
        b.title is None
    } else {
        b.completed is None
    }
}

/// `b` with member `k` taken from `t`.
pub open spec fn set_member(b: PartialV, t: TodoV, k: int) -> PartialV {
    if k == 0 {
        PartialV { user_id: Some(t.user_id), id: b.id, title: b.title, completed: b.completed }
    } else if k == 1 {
        PartialV { user_id: b.user_id, id: Some(t.id), title: b.title, completed: b.completed }
    } else if k == 2 {
        PartialV { user_id: b.user_id, id: b.id, title: Some(t.title), completed: b.completed }
    } else {
        PartialV { user_id: b.user_id, id: b.id, title: b.title, completed: Some(t.completed) }
    }
}

/// Reading one member turned `b` into `a` and consumed exactly `piece`:
/// some previously free member was filled with the value `piece` renders,
/// and the other fields stand as they were.
pub open spec fn member_piece(b: PartialV, a: PartialV, piece: Seq<char>, k: int) -> bool {
    if k == 0 {
        &&& b.user_id is None
        &&& a.id == b.id && a.title == b.title && a.completed == b.completed
        &&& (a.user_id matches Some(u) && piece == name_user() + dec_digits(u as nat))
    } else if k == 1 {
        &&& b.id is None
        &&& a.user_id == b.user_id && a.title == b.title && a.completed == b.completed
        &&& (a.id matches Some(v) && piece == name_id() + dec_digits(v as nat))
    } else if k == 2 {
        &&& b.title is None
        &&& a.user_id == b.user_id && a.id == b.id && a.completed == b.completed
        &&& (a.title matches Some(tt) && valid_title(tt) && piece == name_title() + tt
            + seq!['"'])
    } else if k == 3 {
        &&& b.completed is None
        &&& a.user_id == b.user_id && a.id == b.id && a.title == b.title
        &&& (a.completed matches Some(bb) && piece == name_completed() + bool_chars(bb))
    } else {
        false
    }
}

pub open spec fn member_step(b: PartialV, a: PartialV, piece: Seq<char>) -> bool {
    exists|k: int| #[trigger] member_piece(b, a, piece, k)
}

/// Member `k` of `t` is rendered at `pos`.
pub open spec fn member_at(s: Seq<char>, pos: int, t: TodoV, k: int) -> bool {
    &&& valid_todo(t)
    &&& 0 <= k < 4
    &&& 0 <= pos
    &&& pos + mem(t, k).len() <= s.len()
    &&& s.subrange(pos, pos + mem(t, k).len()) == mem(t, k)
}

/// Reads one member, whichever of the four it is, into its slot. A member
/// already read, an unknown name, or a malformed value is refused.
#[verifier::rlimit(100)]
fn parse_member(s: &str, pos: usize, acc: &mut Partial) -> (r: Option<usize>)
    requires
        pos <= s@.len(),
    ensures
        r is None ==> *final(acc) == *old(acc),
        r matches Some(end) ==> pos < end <= s@.len() && member_step(
            old(acc)@,
            final(acc)@,
            s@.subrange(pos as int, end as int),
        ),
        forall|t: TodoV, k: int|
            (#[trigger] member_at(s@, pos as int, t, k) && slot_free(old(acc)@, k) && (pos + mem(
                t,
                k,
            ).len() == s@.len() || !is_digit(s@[pos + mem(t, k).len()]))) ==> (r == Some(
                (pos + mem(t, k).len()) as usize,
            ) && final(acc)@ == set_member(old(acc)@, t, k)),
{
    proof {
        reveal_strlit("\"userId\":");
        reveal_strlit("\"id\":");
        reveal_strlit("\"title\":\"");
        reveal_strlit("\"completed\":");
    }
    if let Some(e) = expect_lit(s, pos, "\"userId\":") {
        if acc.user_id.is_some() {
            proof {
                assert forall|t: TodoV, k: int|
                    (#[trigger] member_at(s@, pos as int, t, k) && slot_free(old(acc)@, k) && (pos
                        + mem(t, k).len() == s@.len() || !is_digit(
                        s@[pos + mem(t, k).len()],
                    ))) implies false by {
                    if k != 0 {
                        assert(s@.subrange(pos as int, pos + mem(t, k).len())[1] == mem(t, k)[1]);
                        assert(s@.subrange(pos as int, e as int)[1] == 'u');
                        assert(false);
                    }
                }
            }
            return None;
        }
        match scan_number(s, e) {
            Some((v, e2)) => {
                acc.user_id = Some(v);
                proof {
                    assert(s@.subrange(pos as int, e2 as int) =~= s@.subrange(pos as int, e as int)
                        + s@.subrange(e as int, e2 as int));
                    assert(member_piece(
                        old(acc)@,
                        acc@,
                        s@.subrange(pos as int, e2 as int),
                        0,
                    ));
                    assert forall|t: TodoV, k: int|
                        (#[trigger] member_at(s@, pos as int, t, k) && slot_free(old(acc)@, k) && (
                        pos + mem(t, k).len() == s@.len() || !is_digit(
                            s@[pos + mem(t, k).len()],
                        ))) implies (Some(e2) == Some((pos + mem(t, k).len()) as usize) && acc@
                        == set_member(old(acc)@, t, k)) by {
                        if k != 0 {
                            assert(s@.subrange(pos as int, pos + mem(t, k).len())[1] == mem(
                                t,
                                k,
                            )[1]);
                            assert(s@.subrange(pos as int, e as int)[1] == 'u');
                            assert(false);
                        }
                        assert(s@.subrange(pos as int, pos + mem(t, 0).len())[1] == mem(t, 0)[1]);
                        codec_member_number_pins(s@, pos as int, e as int, t, 0);
                        assert(acc@ =~= set_member(old(acc)@, t, 0));
                    }
                }
                return Some(e2);
            },
            None => {
                proof {
                    assert forall|t: TodoV, k: int|
                        (#[trigger] member_at(s@, pos as int, t, k) && slot_free(old(acc)@, k) && (
                        pos + mem(t, k).len() == s@.len() || !is_digit(
                            s@[pos + mem(t, k).len()],
                        ))) implies false by {
                        if k != 0 {
                            assert(s@.subrange(pos as int, pos + mem(t, k).len())[1] == mem(
                                t,
                                k,
                            )[1]);
                            assert(s@.subrange(pos as int, e as int)[1] == 'u');
                            assert(false);
                        }
                        codec_member_number_pins(s@, pos as int, e as int, t, 0);
                    }
                }
                return None;
            },
        }
    }
    if let Some(e) = expect_lit(s, pos, "\"id\":") {
        if acc.id.is_some() {
            proof {
                assert forall|t: TodoV, k: int|
                    (#[trigger] member_at(s@, pos as int, t, k) && slot_free(old(acc)@, k) && (pos
                        + mem(t, k).len() == s@.len() || !is_digit(
                        s@[pos + mem(t, k).len()],
                    ))) implies false by {
                    if k != 1 {
                        assert(s@.subrange(pos as int, pos + mem(t, k).len())[1] == mem(t, k)[1]);
                        assert(s@.subrange(pos as int, e as int)[1] == 'i');
                        assert(false);
                    }
                }
            }
            return None;
        }
        match scan_number(s, e) {
            Some((v, e2)) => {
                acc.id = Some(v);
                proof {
                    assert(s@.subrange(pos as int, e2 as int) =~= s@.subrange(pos as int, e as int)
                        + s@.subrange(e as int, e2 as int));
                    assert(member_piece(
                        old(acc)@,
                        acc@,
                        s@.subrange(pos as int, e2 as int),
                        1,
                    ));
                    assert forall|t: TodoV, k: int|
                        (#[trigger] member_at(s@, pos as int, t, k) && slot_free(old(acc)@, k) && (
                        pos + mem(t, k).len() == s@.len() || !is_digit(
                            s@[pos + mem(t, k).len()],
                        ))) implies (Some(e2) == Some((pos + mem(t, k).len()) as usize) && acc@
                        == set_member(old(acc)@, t, k)) by {
                        if k != 1 {
                            assert(s@.subrange(pos as int, pos + mem(t, k).len())[1] == mem(
                                t,
                                k,
                            )[1]);
                            assert(s@.subrange(pos as int, e as int)[1] == 'i');
                            assert(false);
                        }
                        assert(s@.subrange(pos as int, pos + mem(t, 1).len())[1] == mem(t, 1)[1]);
                        codec_member_number_pins(s@, pos as int, e as int, t, 1);
                        assert(acc@ =~= set_member(old(acc)@, t, 1));
                    }
                }
                return Some(e2);
            },
            None => {
                proof {
                    assert forall|t: TodoV, k: int|
                        (#[trigger] member_at(s@, pos as int, t, k) && slot_free(old(acc)@, k) && (
                        pos + mem(t, k).len() == s@.len() || !is_digit(
                            s@[pos + mem(t, k).len()],
                        ))) implies false by {
                        if k != 1 {
                            assert(s@.subrange(pos as int, pos + mem(t, k).len())[1] == mem(
                                t,
                                k,
                            )[1]);
                            assert(s@.subrange(pos as int, e as int)[1] == 'i');
                            assert(false);
                        }
                        codec_member_number_pins(s@, pos as int, e as int, t, 1);
                    }
                }
                return None;
            },
        }
    }
    if let Some(e) = expect_lit(s, pos, "\"title\":\"") {
        if acc.title.is_some() {
            proof {
                assert forall|t: TodoV, k: int|
                    (#[trigger] member_at(s@, pos as int, t, k) && slot_free(old(acc)@, k) && (pos
                        + mem(t, k).len() == s@.len() || !is_digit(
                        s@[pos + mem(t, k).len()],
                    ))) implies false by {
                    if k != 2 {
                        assert(s@.subrange(pos as int, pos + mem(t, k).len())[1] == mem(t, k)[1]);
                        assert(s@.subrange(pos as int, e as int)[1] == 't');
                        assert(false);
                    }
                }
            }
            return None;
        }
        match scan_title(s, e) {
            Some((ttl, e2)) => {
                let sl = s.unicode_len();
                let e3 = e2 + 1;
                acc.title = Some(ttl);
                proof {
                    assert(s@.subrange(e2 as int, e3 as int) =~= seq!['"']);
                    assert(s@.subrange(pos as int, e3 as int) =~= s@.subrange(pos as int, e as int)
                        + s@.subrange(e as int, e2 as int) + s@.subrange(e2 as int, e3 as int));
                    assert(member_piece(
                        old(acc)@,
                        acc@,
                        s@.subrange(pos as int, e3 as int),
                        2,
                    ));
                    assert forall|t: TodoV, k: int|
                        (#[trigger] member_at(s@, pos as int, t, k) && slot_free(old(acc)@, k) && (
                        pos + mem(t, k).len() == s@.len() || !is_digit(
                            s@[pos + mem(t, k).len()],
                        ))) implies (Some(e3) == Some((pos + mem(t, k).len()) as usize) && acc@
                        == set_member(old(acc)@, t, k)) by {
                        if k != 2 {
                            assert(s@.subrange(pos as int, pos + mem(t, k).len())[1] == mem(
                                t,
                                k,
                            )[1]);
                            assert(s@.subrange(pos as int, e as int)[1] == 't');
                            assert(false);
                        }
                        codec_member_title_pins(s@, pos as int, e as int, t);
                        assert(acc@ =~= set_member(old(acc)@, t, 2));
                    }
                }
                return Some(e3);
            },
            None => {
                proof {
                    assert forall|t: TodoV, k: int|
                        (#[trigger] member_at(s@, pos as int, t, k) && slot_free(old(acc)@, k) && (
                        pos + mem(t, k).len() == s@.len() || !is_digit(
                            s@[pos + mem(t, k).len()],
                        ))) implies false by {
                        if k != 2 {
                            assert(s@.subrange(pos as int, pos + mem(t, k).len())[1] == mem(
                                t,
                                k,
                            )[1]);
                            assert(s@.subrange(pos as int, e as int)[1] == 't');
                            assert(false);
                        }
                        codec_member_title_pins(s@, pos as int, e as int, t);
                    }
                }
                return None;
            },
        }
    }
    if let Some(e) = expect_lit(s, pos, "\"completed\":") {
        if acc.completed.is_some() {
            proof {
                assert forall|t: TodoV, k: int|
                    (#[trigger] member_at(s@, pos as int, t, k) && slot_free(old(acc)@, k) && (pos
                        + mem(t, k).len() == s@.len() || !is_digit(
                        s@[pos + mem(t, k).len()],
                    ))) implies false by {
                    if k != 3 {
                        assert(s@.subrange(pos as int, pos + mem(t, k).len())[1] == mem(t, k)[1]);
                        assert(s@.subrange(pos as int, e as int)[1] == 'c');
                        assert(false);
                    }
                }
            }
            return None;
        }
        match parse_bool(s, e) {
            Some((b, e2)) => {
                acc.completed = Some(b);
                proof {
                    assert(s@.subrange(pos as int, e2 as int) =~= s@.subrange(pos as int, e as int)
                        + s@.subrange(e as int, e2 as int));
                    assert(member_piece(
                        old(acc)@,
                        acc@,
                        s@.subrange(pos as int, e2 as int),
                        3,
                    ));
                    assert forall|t: TodoV, k: int|
                        (#[trigger] member_at(s@, pos as int, t, k) && slot_free(old(acc)@, k) && (
                        pos + mem(t, k).len() == s@.len() || !is_digit(
                            s@[pos + mem(t, k).len()],
                        ))) implies (Some(e2) == Some((pos + mem(t, k).len()) as usize) && acc@
                        == set_member(old(acc)@, t, k)) by {
                        if k != 3 {
                            assert(s@.subrange(pos as int, pos + mem(t, k).len())[1] == mem(
                                t,
                                k,
                            )[1]);
                            assert(s@.subrange(pos as int, e as int)[1] == 'c');
                            assert(false);
                        }
                        codec_member_bool_pins(s@, pos as int, e as int, t);
                        assert(acc@ =~= set_member(old(acc)@, t, 3));
                    }
                }
                return Some(e2);
            },
            None => {
                proof {
                    assert forall|t: TodoV, k: int|
                        (#[trigger] member_at(s@, pos as int, t, k) && slot_free(old(acc)@, k) && (
                        pos + mem(t, k).len() == s@.len() || !is_digit(
                            s@[pos + mem(t, k).len()],
                        ))) implies false by {
                        if k != 3 {
                            assert(s@.subrange(pos as int, pos + mem(t, k).len())[1] == mem(
                                t,
                                k,
                            )[1]);
                            assert(s@.subrange(pos as int, e as int)[1] == 'c');
                            assert(false);
                        }
                        codec_member_bool_pins(s@, pos as int, e as int, t);
                    }
                }
                return None;
            },
        }
    }
    proof {
        assert forall|t: TodoV, k: int|
            (#[trigger] member_at(s@, pos as int, t, k) && slot_free(old(acc)@, k) && (pos + mem(
                t,
                k,
            ).len() == s@.len() || !is_digit(s@[pos + mem(t, k).len()]))) implies false by {
            if k == 0 {
                codec_member_name_at(s@, pos as int, t, 0);
            } else if k == 1 {
                codec_member_name_at(s@, pos as int, t, 1);
            } else if k == 2 {
                codec_member_name_at(s@, pos as int, t, 2);
            } else {
                codec_member_name_at(s@, pos as int, t, 3);
            }
        }
    }
    None
}

/// The name token of member `k` stands at the start of its rendering.
pub proof fn codec_member_name_at(s: Seq<char>, pos: int, t: TodoV, k: int)
    requires
        member_at(s, pos, t, k),
    ensures
        k == 0 ==> s.subrange(pos, pos + name_user().len()) == name_user(),
        k == 1 ==> s.subrange(pos, pos + name_id().len()) == name_id(),
        k == 2 ==> s.subrange(pos, pos + name_title().len()) == name_title(),
        k == 3 ==> s.subrange(pos, pos + name_completed().len()) == name_completed(),
{
    if k == 0 {
        assert(s.subrange(pos, pos + name_user().len() + dec_digits(t.user_id as nat).len())
            == name_user() + dec_digits(t.user_id as nat));
        lemma_seg_split(s, pos, name_user(), dec_digits(t.user_id as nat));
    } else if k == 1 {
        assert(s.subrange(pos, pos + name_id().len() + dec_digits(t.id as nat).len()) == name_id()
            + dec_digits(t.id as nat));
        lemma_seg_split(s, pos, name_id(), dec_digits(t.id as nat));
    } else if k == 2 {
        let tail = t.title + seq!['"'];
        assert(mem(t, 2) =~= name_title() + tail);
        assert(s.subrange(pos, pos + name_title().len() + tail.len()) == name_title() + tail);
        lemma_seg_split(s, pos, name_title(), tail);
    } else {
        assert(s.subrange(pos, pos + name_completed().len() + bool_chars(t.completed).len())
            == name_completed() + bool_chars(t.completed));
        lemma_seg_split(s, pos, name_completed(), bool_chars(t.completed));
    }
}

/// After the name of a numeric member, the scanner is forced to the
/// member's number and end position.
pub proof fn codec_member_number_pins(s: Seq<char>, pos: int, e: int, t: TodoV, k: int)
    requires
        member_at(s, pos, t, k),
        k == 0 || k == 1,
        e == pos + (if k == 0 {
            name_user().len() as int
        } else {
            name_id().len() as int
        }),
        pos + mem(t, k).len() == s.len() || !is_digit(s[pos + mem(t, k).len()]),
    ensures
        k == 0 ==> s.subrange(e, e + dec_digits(t.user_id as nat).len()) == dec_digits(
            t.user_id as nat,
        ) && e + dec_digits(t.user_id as nat).len() == pos + mem(t, 0).len(),
        k == 1 ==> s.subrange(e, e + dec_digits(t.id as nat).len()) == dec_digits(t.id as nat) && e
            + dec_digits(t.id as nat).len() == pos + mem(t, 1).len(),
{
    if k == 0 {
        assert(s.subrange(pos, pos + name_user().len() + dec_digits(t.user_id as nat).len())
            == name_user() + dec_digits(t.user_id as nat));
        lemma_seg_split(s, pos, name_user(), dec_digits(t.user_id as nat));
    } else {
        assert(s.subrange(pos, pos + name_id().len() + dec_digits(t.id as nat).len()) == name_id()
            + dec_digits(t.id as nat));
        lemma_seg_split(s, pos, name_id(), dec_digits(t.id as nat));
    }
}

/// After the title name and its opening quote, the title scanner is forced
/// to the member's title and closing quote.
pub proof fn codec_member_title_pins(s: Seq<char>, pos: int, e: int, t: TodoV)
    requires
        member_at(s, pos, t, 2),
        e == pos + name_title().len(),
    ensures
        s.subrange(e, e + t.title.len()) == t.title,
        s[e + t.title.len()] == '"',
        e + t.title.len() + 1 == pos + mem(t, 2).len(),
{
    let tail = t.title + seq!['"'];
    assert(mem(t, 2) =~= name_title() + tail);
    assert(s.subrange(pos, pos + name_title().len() + tail.len()) == name_title() + tail);
    lemma_seg_split(s, pos, name_title(), tail);
    assert(s.subrange(e, e + tail.len()) == tail);
    lemma_seg_split(s, e, t.title, seq!['"']);
    assert(s[e + t.title.len()] == s.subrange(e + t.title.len(), e + tail.len())[0]);
}

/// After the completed name, the boolean parser is forced to the member's
/// flag and end position.
pub proof fn codec_member_bool_pins(s: Seq<char>, pos: int, e: int, t: TodoV)
    requires
        member_at(s, pos, t, 3),
        e == pos + name_completed().len(),
    ensures
        s.subrange(e, e + bool_chars(t.completed).len()) == bool_chars(t.completed),
        e + bool_chars(t.completed).len() == pos + mem(t, 3).len(),
{
    assert(s.subrange(pos, pos + name_completed().len() + bool_chars(t.completed).len())
        == name_completed() + bool_chars(t.completed));
    lemma_seg_split(s, pos, name_completed(), bool_chars(t.completed));
}


/// A `Partial` with nothing read yet.
pub open spec fn empty_partial() -> PartialV {
    PartialV { user_id: None, id: None, title: None, completed: None }
}

/// Everything a reader of a rendered record needs at once: where the four
/// members sit, the separators between them, and the characters that end
/// each member.
#[verifier::rlimit(100)]
pub proof fn lemma_rendered_pins(s: Seq<char>, pos: int, t: TodoV, p: Seq<int>)
    requires
        todo_rendered_at(s, pos, t, p),
    ensures
        ro8(t, p) == rtodo(t, p).len(),
        pos + ro8(t, p) <= s.len(),
        pos + 1 <= s.len(),
        s.subrange(pos, pos + 1) == "{"@,
        member_at(s, pos + 1, t, p[0]),
        pos + 1 + mem(t, p[0]).len() == pos + ro1(t, p),
        !is_digit(s[pos + ro1(t, p)]),
        s.subrange(pos + ro1(t, p), pos + ro1(t, p) + 1) == ","@,
        member_at(s, pos + ro2(t, p), t, p[1]),
        pos + ro2(t, p) + mem(t, p[1]).len() == pos + ro3(t, p),
        !is_digit(s[pos + ro3(t, p)]),
        s.subrange(pos + ro3(t, p), pos + ro3(t, p) + 1) == ","@,
        member_at(s, pos + ro4(t, p), t, p[2]),
        pos + ro4(t, p) + mem(t, p[2]).len() == pos + ro5(t, p),
        !is_digit(s[pos + ro5(t, p)]),
        s.subrange(pos + ro5(t, p), pos + ro5(t, p) + 1) == ","@,
        member_at(s, pos + ro6(t, p), t, p[3]),
        pos + ro6(t, p) + mem(t, p[3]).len() == pos + ro7(t, p),
        !is_digit(s[pos + ro7(t, p)]),
        s.subrange(pos + ro7(t, p), pos + ro7(t, p) + 1) == "}"@,
        0 <= p[0] < 4 && 0 <= p[1] < 4 && 0 <= p[2] < 4 && 0 <= p[3] < 4,
        p[0] != p[1] && p[0] != p[2] && p[0] != p[3] && p[1] != p[2] && p[1] != p[3] && p[2]
            != p[3],
{
    reveal_strlit("{");
    reveal_strlit(",");
    reveal_strlit("}");
    lemma_rtodo_layout(s, pos, t, p);
    assert("{"@ =~= seq!['{']);
    assert(","@ =~= seq![',']);
    assert("}"@ =~= seq!['}']);
    assert(s.subrange(pos + ro1(t, p), pos + ro2(t, p))[0] == ',');
    assert(s.subrange(pos + ro3(t, p), pos + ro4(t, p))[0] == ',');
    assert(s.subrange(pos + ro5(t, p), pos + ro6(t, p))[0] == ',');
    assert(s.subrange(pos + ro7(t, p), pos + ro8(t, p))[0] == '}');
    assert(s.subrange(pos + ro1(t, p), pos + ro1(t, p) + 1) =~= seq![',']);
    assert(s.subrange(pos + ro3(t, p), pos + ro3(t, p) + 1) =~= seq![',']);
    assert(s.subrange(pos + ro5(t, p), pos + ro5(t, p) + 1) =~= seq![',']);
    assert(s.subrange(pos + ro7(t, p), pos + ro7(t, p) + 1) =~= seq!['}']);
    assert(member_at(s, pos + 1, t, p[0]));
    assert(member_at(s, pos + ro2(t, p), t, p[1]));
    assert(member_at(s, pos + ro4(t, p), t, p[2]));
    assert(member_at(s, pos + ro6(t, p), t, p[3]));
}

/// What a successful opening read guarantees: a brace, a member, a comma,
/// a second member and a second comma, read into `a` from nothing.
pub open spec fn obj_open_sound(s: Seq<char>, pos: int, m: int, a: PartialV) -> bool {
    exists|x1: int, mid: PartialV|
        {
            &&& pos + 1 < x1
            &&& x1 + 1 < m - 1
            &&& m <= s.len()
            &&& s.subrange(pos, pos + 1) == "{"@
            &&& #[trigger] member_step(empty_partial(), mid, s.subrange(pos + 1, x1))
            &&& s.subrange(x1, x1 + 1) == ","@
            &&& member_step(mid, a, s.subrange(x1 + 1, m - 1))
            &&& s.subrange(m - 1, m) == ","@
        }
}

/// Reads the opening of a rendered record: the brace and the first two
/// members with their separating commas.
#[verifier::spinoff_prover]
#[verifier::rlimit(100)]
fn parse_obj_open(s: &str, pos: usize, acc: &mut Partial) -> (r: Option<usize>)
    requires
        pos <= s@.len(),
        old(acc)@ == empty_partial(),
    ensures
        r is None ==> (forall|t: TodoV, p: Seq<int>|
            !(#[trigger] todo_rendered_at(s@, pos as int, t, p))),
        r matches Some(m) ==> pos < m <= s@.len() && obj_open_sound(
            s@,
            pos as int,
            m as int,
            final(acc)@,
        ),
        forall|t: TodoV, p: Seq<int>|
            #[trigger] todo_rendered_at(s@, pos as int, t, p) ==> (r == Some(
                (pos + ro4(t, p)) as usize,
            ) && final(acc)@ == set_member(set_member(empty_partial(), t, p[0]), t, p[1])),
{
    proof {
        reveal_strlit("{");
        reveal_strlit(",");
    }
    let op = match expect_lit(s, pos, "{") {
        Some(e) => e,
        None => {
            proof {
                assert forall|t: TodoV, p: Seq<int>| #[trigger]
                    todo_rendered_at(s@, pos as int, t, p) implies false by {
                    lemma_rendered_pins(s@, pos as int, t, p);
                }
            }
            return None;
        },
    };
    let ghost a0 = acc@;
    let e1 = match parse_member(s, op, acc) {
        Some(e) => e,
        None => {
            proof {
                assert forall|t: TodoV, p: Seq<int>| #[trigger]
                    todo_rendered_at(s@, pos as int, t, p) implies false by {
                    lemma_rendered_pins(s@, pos as int, t, p);
                    assert(op == pos + 1);
                    assert(slot_free(a0, p[0]));
                }
            }
            return None;
        },
    };
    let ghost a1 = acc@;
    let c1 = match expect_lit(s, e1, ",") {
        Some(e) => e,
        None => {
            proof {
                assert forall|t: TodoV, p: Seq<int>| #[trigger]
                    todo_rendered_at(s@, pos as int, t, p) implies false by {
                    lemma_rendered_pins(s@, pos as int, t, p);
                    assert(op == pos + 1);
                    assert(slot_free(a0, p[0]));
                    assert(e1 == pos + ro1(t, p));
                    assert(a1 == set_member(a0, t, p[0]));
                }
            }
            return None;
        },
    };
    let e2 = match parse_member(s, c1, acc) {
        Some(e) => e,
        None => {
            proof {
                assert forall|t: TodoV, p: Seq<int>| #[trigger]
                    todo_rendered_at(s@, pos as int, t, p) implies false by {
                    lemma_rendered_pins(s@, pos as int, t, p);
                    assert(op == pos + 1);
                    assert(slot_free(a0, p[0]));
                    assert(e1 == pos + ro1(t, p));
                    assert(a1 == set_member(a0, t, p[0]));
                    assert(c1 == pos + ro2(t, p));
                    assert(slot_free(a1, p[1]));
                }
            }
            return None;
        },
    };
    let ghost a2 = acc@;
    let c2 = match expect_lit(s, e2, ",") {
        Some(e) => e,
        None => {
            proof {
                assert forall|t: TodoV, p: Seq<int>| #[trigger]
                    todo_rendered_at(s@, pos as int, t, p) implies false by {
                    lemma_rendered_pins(s@, pos as int, t, p);
                    assert(op == pos + 1);
                    assert(slot_free(a0, p[0]));
                    assert(e1 == pos + ro1(t, p));
                    assert(a1 == set_member(a0, t, p[0]));
                    assert(c1 == pos + ro2(t, p));
                    assert(slot_free(a1, p[1]));
                    assert(e2 == pos + ro3(t, p));
                    assert(a2 == set_member(a1, t, p[1]));
                }
            }
            return None;
        },
    };
    proof {
        assert(obj_open_sound(s@, pos as int, c2 as int, acc@)) by {
            assert(member_step(empty_partial(), a1, s@.subrange(pos + 1, e1 as int)));
            assert(member_step(a1, a2, s@.subrange(e1 + 1, c2 - 1)));
            assert(s@.subrange(e1 as int, e1 + 1) == ","@);
            assert(s@.subrange(c2 - 1, c2 as int) == ","@);
        }
        assert forall|t: TodoV, p: Seq<int>| #[trigger]
            todo_rendered_at(s@, pos as int, t, p) implies (Some(c2) == Some(
            (pos + ro4(t, p)) as usize,
        ) && acc@ == set_member(set_member(empty_partial(), t, p[0]), t, p[1])) by {
                    lemma_rendered_pins(s@, pos as int, t, p);
                    assert(op == pos + 1);
                    assert(slot_free(a0, p[0]));
                    assert(e1 == pos + ro1(t, p));
                    assert(a1 == set_member(a0, t, p[0]));
                    assert(c1 == pos + ro2(t, p));
                    assert(slot_free(a1, p[1]));
                    assert(e2 == pos + ro3(t, p));
                    assert(a2 == set_member(a1, t, p[1]));
        }
    }
    Some(c2)
}

/// Reads the rest of a rendered record after its opening: the last two
/// members, the closing brace, and the assembly of the record.
#[verifier::spinoff_prover]
#[verifier::rlimit(100)]
fn parse_obj_close(s: &str, m: usize, acc: &mut Partial, Ghost(pos): Ghost<int>) -> (r: Option<
    (crate::Todo, usize),
>)
    requires
        0 <= pos < m as int,
        m <= s@.len(),
        obj_open_sound(s@, pos, m as int, old(acc)@),
        forall|t: TodoV, p: Seq<int>|
            #[trigger] todo_rendered_at(s@, pos, t, p) ==> (m as int == pos + ro4(t, p) && old(
                acc,
            )@ == set_member(set_member(empty_partial(), t, p[0]), t, p[1])),
    ensures
        r matches Some(q) ==> {
            &&& pos < q.1 <= s@.len()
            &&& valid_todo(q.0.deep_view())
            &&& exists|p: Seq<int>|
                #[trigger] todo_rendered_at(s@, pos, q.0.deep_view(), p) && q.1 == pos + rtodo(
                    q.0.deep_view(),
                    p,
                ).len()
        },
        forall|t: TodoV, p: Seq<int>|
            #[trigger] todo_rendered_at(s@, pos, t, p) ==> (r matches Some(q) && q.0.deep_view()
                == t && q.1 == pos + rtodo(t, p).len()),
{
    proof {
        reveal_strlit(",");
        reveal_strlit("}");
    }
    let ghost b2 = acc@;
    let f3 = match parse_member(s, m, acc) {
        Some(e) => e,
        None => {
            proof {
                assert forall|t: TodoV, p: Seq<int>| #[trigger]
                    todo_rendered_at(s@, pos, t, p) implies false by {
                    lemma_rendered_pins(s@, pos, t, p);
                    assert(m == pos + ro4(t, p));
                    assert(b2 == set_member(set_member(empty_partial(), t, p[0]), t, p[1]));
                    assert(slot_free(b2, p[2]));
                }
            }
            return None;
        },
    };
    let ghost b3 = acc@;
    let d3 = match expect_lit(s, f3, ",") {
        Some(e) => e,
        None => {
            proof {
                assert forall|t: TodoV, p: Seq<int>| #[trigger]
                    todo_rendered_at(s@, pos, t, p) implies false by {
                    lemma_rendered_pins(s@, pos, t, p);
                    assert(m == pos + ro4(t, p));
                    assert(b2 == set_member(set_member(empty_partial(), t, p[0]), t, p[1]));
                    assert(slot_free(b2, p[2]));
                    assert(f3 == pos + ro5(t, p));
                    assert(b3 == set_member(b2, t, p[2]));
                }
            }
            return None;
        },
    };
    let f4 = match parse_member(s, d3, acc) {
        Some(e) => e,
        None => {
            proof {
                assert forall|t: TodoV, p: Seq<int>| #[trigger]
                    todo_rendered_at(s@, pos, t, p) implies false by {
                    lemma_rendered_pins(s@, pos, t, p);
                    assert(m == pos + ro4(t, p));
                    assert(b2 == set_member(set_member(empty_partial(), t, p[0]), t, p[1]));
                    assert(slot_free(b2, p[2]));
                    assert(f3 == pos + ro5(t, p));
                    assert(b3 == set_member(b2, t, p[2]));
                    assert(d3 == pos + ro6(t, p));
                    assert(slot_free(b3, p[3]));
                }
            }
            return None;
        },
    };
    let ghost b4 = acc@;
    let cl = match expect_lit(s, f4, "}") {
        Some(e) => e,
        None => {
            proof {
                assert forall|t: TodoV, p: Seq<int>| #[trigger]
                    todo_rendered_at(s@, pos, t, p) implies false by {
                    lemma_rendered_pins(s@, pos, t, p);
                    assert(m == pos + ro4(t, p));
                    assert(b2 == set_member(set_member(empty_partial(), t, p[0]), t, p[1]));
                    assert(slot_free(b2, p[2]));
                    assert(f3 == pos + ro5(t, p));
                    assert(b3 == set_member(b2, t, p[2]));
                    assert(d3 == pos + ro6(t, p));
                    assert(slot_free(b3, p[3]));
                    assert(f4 == pos + ro7(t, p));
                    assert(b4 == set_member(b3, t, p[3]));
                }
            }
            return None;
        },
    };
    let Partial { user_id, id, title, completed } = Partial {
        user_id: acc.user_id,
        id: acc.id,
        title: acc.title.take(),
        completed: acc.completed,
    };
    match (user_id, id, title, completed) {
        (Some(u), Some(v), Some(tt), Some(bb)) => {
            let todo = crate::Todo { user_id: u, id: v, title: tt, completed: bb };
            proof {
                assert(b4.user_id == Some(u) && b4.id == Some(v) && b4.title == Some(tt@)
                    && b4.completed == Some(bb));
                lemma_any_sound(
                    s@,
                    pos,
                    m as int,
                    f3 as int,
                    d3 as int,
                    f4 as int,
                    cl as int,
                    b2,
                    b3,
                    b4,
                    todo.deep_view(),
                );
                assert forall|t: TodoV, p: Seq<int>| #[trigger]
                    todo_rendered_at(s@, pos, t, p) implies (todo.deep_view() == t && cl == pos
                    + rtodo(t, p).len()) by {
                    lemma_rendered_pins(s@, pos, t, p);
                    assert(m == pos + ro4(t, p));
                    assert(b2 == set_member(set_member(empty_partial(), t, p[0]), t, p[1]));
                    assert(slot_free(b2, p[2]));
                    assert(f3 == pos + ro5(t, p));
                    assert(b3 == set_member(b2, t, p[2]));
                    assert(d3 == pos + ro6(t, p));
                    assert(slot_free(b3, p[3]));
                    assert(f4 == pos + ro7(t, p));
                    assert(b4 == set_member(b3, t, p[3]));
                    assert(b4.user_id == Some(t.user_id));
                    assert(b4.id == Some(t.id));
                    assert(b4.title == Some(t.title));
                    assert(b4.completed == Some(t.completed));
                    assert(cl == pos + ro8(t, p));
                    assert(todo.deep_view() =~= t);
                }
            }
            Some((todo, cl))
        },
        _ => {
            proof {
                assert forall|t: TodoV, p: Seq<int>| #[trigger]
                    todo_rendered_at(s@, pos, t, p) implies false by {
                    lemma_rendered_pins(s@, pos, t, p);
                    assert(m == pos + ro4(t, p));
                    assert(b2 == set_member(set_member(empty_partial(), t, p[0]), t, p[1]));
                    assert(slot_free(b2, p[2]));
                    assert(f3 == pos + ro5(t, p));
                    assert(b3 == set_member(b2, t, p[2]));
                    assert(d3 == pos + ro6(t, p));
                    assert(slot_free(b3, p[3]));
                    assert(f4 == pos + ro7(t, p));
                    assert(b4 == set_member(b3, t, p[3]));
                    assert(b4.user_id == Some(t.user_id));
                    assert(b4.id == Some(t.id));
                    assert(b4.title == Some(t.title));
                    assert(b4.completed == Some(t.completed));
                }
            }
            return None;
        },
    }
}

/// Reads one rendered record at `pos`, whatever order its four members
/// come in. Succeeds exactly when a record with a representable title is
/// rendered there, each member exactly once, and then returns its fields
/// verbatim together with the end position.
pub fn parse_todo_any(s: &str, pos: usize) -> (r: Option<(crate::Todo, usize)>)
    requires
        pos <= s@.len(),
    ensures
        r matches Some(q) ==> {
            &&& pos < q.1 <= s@.len()
            &&& valid_todo(q.0.deep_view())
            &&& exists|p: Seq<int>|
                #[trigger] todo_rendered_at(s@, pos as int, q.0.deep_view(), p) && q.1 == pos
                    + rtodo(q.0.deep_view(), p).len()
        },
        forall|t: TodoV, p: Seq<int>|
            #[trigger] todo_rendered_at(s@, pos as int, t, p) ==> (r matches Some(q)
                && q.0.deep_view() == t && q.1 == pos + rtodo(t, p).len()),
{
    let mut partial = Partial { user_id: None, id: None, title: None, completed: None };
    let m = match parse_obj_open(s, pos, &mut partial) {
        Some(x) => x,
        None => {
            return None;
        },
    };
    parse_obj_close(s, m, &mut partial, Ghost(pos as int))
}

/// From the pieces read in wire order, the consumed text is a rendering of
/// the assembled record under the member order that was encountered.
#[verifier::rlimit(100)]
pub proof fn lemma_any_sound(
    s: Seq<char>,
    pos: int,
    m: int,
    f3: int,
    d3: int,
    f4: int,
    cl: int,
    b2: PartialV,
    b3: PartialV,
    b4: PartialV,
    dv: TodoV,
)
    requires
        0 <= pos,
        cl <= s.len(),
        d3 == f3 + 1,
        cl == f4 + 1,
        pos < m <= f3 < d3 <= f4 < cl,
        obj_open_sound(s, pos, m, b2),
        member_step(b2, b3, s.subrange(m, f3)),
        s.subrange(f3, d3) == ","@,
        member_step(b3, b4, s.subrange(d3, f4)),
        s.subrange(f4, cl) == "}"@,
        b4.user_id == Some(dv.user_id),
        b4.id == Some(dv.id),
        b4.title == Some(dv.title),
        b4.completed == Some(dv.completed),
    ensures
        valid_todo(dv),
        exists|p: Seq<int>|
            #[trigger] todo_rendered_at(s, pos, dv, p) && cl == pos + rtodo(dv, p).len(),
{
    reveal_strlit("{");
    reveal_strlit(",");
    reveal_strlit("}");
    let (x1, mid) = choose|x1: int, mid: PartialV|
        {
            &&& pos + 1 < x1
            &&& x1 + 1 < m - 1
            &&& m <= s.len()
            &&& s.subrange(pos, pos + 1) == "{"@
            &&& #[trigger] member_step(empty_partial(), mid, s.subrange(pos + 1, x1))
            &&& s.subrange(x1, x1 + 1) == ","@
            &&& member_step(mid, b2, s.subrange(x1 + 1, m - 1))
            &&& s.subrange(m - 1, m) == ","@
        };
    let piece1 = s.subrange(pos + 1, x1);
    let piece2 = s.subrange(x1 + 1, m - 1);
    let piece3 = s.subrange(m, f3);
    let piece4 = s.subrange(d3, f4);
    let k1 = choose|k: int| member_piece(empty_partial(), mid, piece1, k);
    let k2 = choose|k: int| member_piece(mid, b2, piece2, k);
    let k3 = choose|k: int| member_piece(b2, b3, piece3, k);
    let k4 = choose|k: int| member_piece(b3, b4, piece4, k);
    assert(member_piece(empty_partial(), mid, piece1, k1));
    assert(member_piece(mid, b2, piece2, k2));
    assert(member_piece(b2, b3, piece3, k3));
    assert(member_piece(b3, b4, piece4, k4));
    assert(0 <= k1 < 4 && 0 <= k2 < 4 && 0 <= k3 < 4 && 0 <= k4 < 4);
    assert(k2 != k1 && k3 != k1 && k3 != k2 && k4 != k1 && k4 != k2 && k4 != k3);
    let pp = seq![k1, k2, k3, k4];
    assert(pp[0] == k1 && pp[1] == k2 && pp[2] == k3 && pp[3] == k4);
    assert(is_perm4(pp));
    assert(piece1 == mem(dv, k1));
    assert(piece2 == mem(dv, k2));
    assert(piece3 == mem(dv, k3));
    assert(piece4 == mem(dv, k4));
    assert(valid_todo(dv)) by {
        assert(k1 == 2 || k2 == 2 || k3 == 2 || k4 == 2);
    }
    assert(s.subrange(pos, pos + 1) =~= seq!['{']);
    assert(s.subrange(x1, x1 + 1) =~= seq![',']);
    assert(s.subrange(m - 1, m) =~= seq![',']);
    assert(s.subrange(f3, d3) =~= seq![',']);
    assert(s.subrange(f4, cl) =~= seq!['}']);
    assert(s.subrange(pos, x1) =~= s.subrange(pos, pos + 1) + piece1);
    assert(s.subrange(pos, x1) == seq!['{'] + mem(dv, pp[0]));
    assert(s.subrange(pos, x1 + 1) =~= s.subrange(pos, x1) + s.subrange(x1, x1 + 1));
    assert(s.subrange(pos, x1 + 1) == seq!['{'] + mem(dv, pp[0]) + seq![',']);
    assert(s.subrange(pos, m - 1) =~= s.subrange(pos, x1 + 1) + piece2);
    assert(s.subrange(pos, m - 1) == seq!['{'] + mem(dv, pp[0]) + seq![','] + mem(dv, pp[1]));
    assert(s.subrange(pos, m) =~= s.subrange(pos, m - 1) + s.subrange(m - 1, m));
    assert(s.subrange(pos, m) == seq!['{'] + mem(dv, pp[0]) + seq![','] + mem(dv, pp[1])
        + seq![',']);
    assert(s.subrange(pos, f3) =~= s.subrange(pos, m) + piece3);
    assert(s.subrange(pos, f3) == seq!['{'] + mem(dv, pp[0]) + seq![','] + mem(dv, pp[1])
        + seq![','] + mem(dv, pp[2]));
    assert(s.subrange(pos, d3) =~= s.subrange(pos, f3) + s.subrange(f3, d3));
    assert(s.subrange(pos, d3) == seq!['{'] + mem(dv, pp[0]) + seq![','] + mem(dv, pp[1])
        + seq![','] + mem(dv, pp[2]) + seq![',']);
    assert(s.subrange(pos, f4) =~= s.subrange(pos, d3) + piece4);
    assert(s.subrange(pos, f4) == seq!['{'] + mem(dv, pp[0]) + seq![','] + mem(dv, pp[1])
        + seq![','] + mem(dv, pp[2]) + seq![','] + mem(dv, pp[3]));
    assert(s.subrange(pos, cl) =~= s.subrange(pos, f4) + s.subrange(f4, cl));
    assert(s.subrange(pos, cl) == rtodo(dv, pp));
    assert(todo_rendered_at(s, pos, dv, pp));
    assert(cl == pos + rtodo(dv, pp).len());
}

/// Decodes a single-item text that is exactly one rendered record, in any
/// member order.
pub fn decode_todo_any(s: &str) -> (r: Option<crate::Todo>)
    ensures
        r matches Some(t) ==> valid_todo(t.deep_view()) && (exists|p: Seq<int>|
            is_perm4(p) && s@ == #[trigger] rtodo(t.deep_view(), p)),
        forall|t: TodoV, p: Seq<int>|
            (valid_todo(t) && is_perm4(p) && s@ == #[trigger] rtodo(t, p)) ==> (r matches Some(q)
                && q.deep_view() == t),
{
    proof {
        assert forall|t: TodoV, p: Seq<int>|
            (valid_todo(t) && is_perm4(p) && s@ == #[trigger] rtodo(t, p)) implies
            todo_rendered_at(s@, 0, t, p) by {
            assert(s@.subrange(0, rtodo(t, p).len() as int) =~= rtodo(t, p));
        }
    }
    match parse_todo_any(s, 0) {
        Some((t, end)) => {
            if end == s.unicode_len() {
                proof {
                    let p = choose|p: Seq<int>|
                        #[trigger] todo_rendered_at(s@, 0, t.deep_view(), p) && end as int
                            == rtodo(t.deep_view(), p).len();
                    assert(s@.subrange(0, end as int) =~= s@);
                    assert(s@ == rtodo(t.deep_view(), p));
                }
                Some(t)
            } else {
                None
            }
        },
        None => None,
    }
}

pub open spec fn all_perm4(ps: Seq<Seq<int>>) -> bool {
    forall|i: int| 0 <= i < ps.len() ==> is_perm4(#[trigger] ps[i])
}

/// The wire text of every record after the first, each rendered under its
/// own member order and preceded by the separating comma.
pub open spec fn rest_rend(ts: Seq<TodoV>, ps: Seq<Seq<int>>) -> Seq<char>
    decreases ts.len(),
{
    if ts.len() == 0 {
        Seq::empty()
    } else {
        seq![','] + rtodo(ts[0], ps[0]) + rest_rend(ts.drop_first(), ps.drop_first())
    }
}

pub open spec fn items_rend(ts: Seq<TodoV>, ps: Seq<Seq<int>>) -> Seq<char> {
    if ts.len() == 0 {
        Seq::empty()
    } else {
        rtodo(ts[0], ps[0]) + rest_rend(ts.drop_first(), ps.drop_first())
    }
}

/// The wire text of a whole collection response under the member orders
/// `ps`.
pub open spec fn arr_rend(ts: Seq<TodoV>, ps: Seq<Seq<int>>) -> Seq<char> {
    seq!['['] + items_rend(ts, ps) + seq![']']
}

/// `s` is a rendering of the collection `ts`, one member order per record.
pub open spec fn todos_rendered(s: Seq<char>, ts: Seq<TodoV>, ps: Seq<Seq<int>>) -> bool {
    &&& ts.len() == ps.len()
    &&& valid_todos(ts)
    &&& all_perm4(ps)
    &&& s == arr_rend(ts, ps)
}

pub proof fn lemma_rest_push_r(ts: Seq<TodoV>, ps: Seq<Seq<int>>, t: TodoV, p: Seq<int>)
    requires
        ts.len() == ps.len(),
    ensures
        rest_rend(ts.push(t), ps.push(p)) == rest_rend(ts, ps) + seq![','] + rtodo(t, p),
    decreases ts.len(),
{
    if ts.len() == 0 {
        assert(ts.push(t).drop_first() =~= Seq::<TodoV>::empty());
        assert(ps.push(p).drop_first() =~= Seq::<Seq<int>>::empty());
        assert(ts.push(t)[0] == t && ps.push(p)[0] == p);
        assert(rest_rend(Seq::<TodoV>::empty(), Seq::<Seq<int>>::empty()) == Seq::<char>::empty());
        assert(rest_rend(ts.push(t), ps.push(p)) =~= rest_rend(ts, ps) + seq![','] + rtodo(t, p));
    } else {
        lemma_rest_push_r(ts.drop_first(), ps.drop_first(), t, p);
        assert(ts.push(t).drop_first() =~= ts.drop_first().push(t));
        assert(ps.push(p).drop_first() =~= ps.drop_first().push(p));
        assert(ts.push(t)[0] == ts[0] && ps.push(p)[0] == ps[0]);
        assert(rest_rend(ts.push(t), ps.push(p)) =~= rest_rend(ts, ps) + seq![','] + rtodo(t, p));
    }
}

pub proof fn lemma_items_push_r(ts: Seq<TodoV>, ps: Seq<Seq<int>>, t: TodoV, p: Seq<int>)
    requires
        ts.len() == ps.len(),
    ensures
        ts.len() == 0 ==> items_rend(ts.push(t), ps.push(p)) == rtodo(t, p),
        ts.len() > 0 ==> items_rend(ts.push(t), ps.push(p)) == items_rend(ts, ps) + seq![',']
            + rtodo(t, p),
{
    if ts.len() == 0 {
        assert(ts.push(t).drop_first() =~= Seq::<TodoV>::empty());
        assert(ps.push(p).drop_first() =~= Seq::<Seq<int>>::empty());
        assert(ts.push(t)[0] == t && ps.push(p)[0] == p);
        assert(items_rend(ts.push(t), ps.push(p)) =~= rtodo(t, p));
    } else {
        lemma_rest_push_r(ts.drop_first(), ps.drop_first(), t, p);
        assert(ts.push(t).drop_first() =~= ts.drop_first().push(t));
        assert(ps.push(p).drop_first() =~= ps.drop_first().push(p));
        assert(ts.push(t)[0] == ts[0] && ps.push(p)[0] == ps[0]);
        assert(items_rend(ts.push(t), ps.push(p)) =~= items_rend(ts, ps) + seq![','] + rtodo(
            t,
            p,
        ));
    }
}

/// What follows once `k` records and their separators have been read.
pub open spec fn tail_rend(ts: Seq<TodoV>, ps: Seq<Seq<int>>, k: int) -> Seq<char> {
    rtodo(ts[k], ps[k]) + rest_rend(
        ts.subrange(k + 1, ts.len() as int),
        ps.subrange(k + 1, ps.len() as int),
    ) + seq![']']
}

/// A non-empty rendered collection opens with its first record right after
/// the bracket.
pub proof fn lemma_tail_zero_r(ts: Seq<TodoV>, ps: Seq<Seq<int>>)
    requires
        ts.len() == ps.len(),
        ts.len() > 0,
    ensures
        arr_rend(ts, ps).subrange(1, arr_rend(ts, ps).len() as int) == tail_rend(ts, ps, 0),
{
    assert(ts.drop_first() =~= ts.subrange(1, ts.len() as int));
    assert(ps.drop_first() =~= ps.subrange(1, ps.len() as int));
    assert(arr_rend(ts, ps).subrange(1, arr_rend(ts, ps).len() as int) =~= tail_rend(ts, ps, 0));
}

/// How the text after one record continues, depending on whether records
/// remain.
pub proof fn lemma_loop_step_r(s: Seq<char>, pos: int, ts: Seq<TodoV>, ps: Seq<Seq<int>>, k: int)
    requires
        ts.len() == ps.len(),
        valid_todos(ts),
        all_perm4(ps),
        0 <= k < ts.len(),
        0 <= pos,
        pos + tail_rend(ts, ps, k).len() == s.len(),
        s.subrange(pos, s.len() as int) == tail_rend(ts, ps, k),
    ensures
        todo_rendered_at(s, pos, ts[k], ps[k]),
        k == ts.len() - 1 ==> pos + rtodo(ts[k], ps[k]).len() + 1 == s.len() && s.subrange(
            pos + rtodo(ts[k], ps[k]).len(),
            s.len() as int,
        ) == seq![']'],
        k < ts.len() - 1 ==> s.subrange(pos + rtodo(ts[k], ps[k]).len(), s.len() as int)
            == seq![','] + tail_rend(ts, ps, k + 1) && s[pos + rtodo(ts[k], ps[k]).len()] == ',',
{
    let e = rtodo(ts[k], ps[k]);
    let sub1 = ts.subrange(k + 1, ts.len() as int);
    let sub1p = ps.subrange(k + 1, ps.len() as int);
    if k == ts.len() - 1 {
        assert(sub1 =~= Seq::<TodoV>::empty());
        assert(sub1p =~= Seq::<Seq<int>>::empty());
        assert(rest_rend(Seq::<TodoV>::empty(), Seq::<Seq<int>>::empty()) == Seq::<char>::empty());
        assert(tail_rend(ts, ps, k) =~= e + seq![']']);
        assert(s.subrange(pos, pos + e.len() + seq![']'].len()) == e + seq![']']);
        lemma_seg_split(s, pos, e, seq![']']);
    } else {
        assert(sub1.len() > 0);
        assert(sub1[0] == ts[k + 1] && sub1p[0] == ps[k + 1]);
        assert(sub1.drop_first() =~= ts.subrange(k + 2, ts.len() as int));
        assert(sub1p.drop_first() =~= ps.subrange(k + 2, ps.len() as int));
        assert(rest_rend(sub1, sub1p) == seq![','] + rtodo(ts[k + 1], ps[k + 1]) + rest_rend(
            ts.subrange(k + 2, ts.len() as int),
            ps.subrange(k + 2, ps.len() as int),
        ));
        let rest = seq![','] + tail_rend(ts, ps, k + 1);
        assert(tail_rend(ts, ps, k) =~= e + rest);
        assert(s.subrange(pos, pos + e.len() + rest.len()) == e + rest);
        lemma_seg_split(s, pos, e, rest);
        assert(s[pos + e.len()] == rest[0]);
    }
    assert(s.subrange(pos, pos + e.len()) == e) by {
        if k == ts.len() - 1 {
        } else {
        }
    }
}


/// Appending a just-read record extends the consumed prefix.
pub proof fn lemma_push_prefix(
    s: Seq<char>,
    pos: int,
    p2: int,
    prev: Seq<TodoV>,
    prevp: Seq<Seq<int>>,
    tdv: TodoV,
    pj: Seq<int>,
)
    requires
        prev.len() == prevp.len(),
        0 <= pos <= p2 <= s.len(),
        s.subrange(0, pos) == seq!['['] + items_rend(prev, prevp) + (if prev.len() == 0 {
            Seq::<char>::empty()
        } else {
            seq![',']
        }),
        s.subrange(pos, p2) == rtodo(tdv, pj),
    ensures
        s.subrange(0, p2) == seq!['['] + items_rend(prev.push(tdv), prevp.push(pj)),
{
    lemma_items_push_r(prev, prevp, tdv, pj);
    assert(s.subrange(0, p2) =~= s.subrange(0, pos) + s.subrange(pos, p2));
    assert(s.subrange(0, p2) =~= seq!['['] + items_rend(prev.push(tdv), prevp.push(pj)));
}

/// A closing bracket at the end of the text completes a rendering of the
/// records read so far.
pub proof fn lemma_close_sound(s: Seq<char>, p2: int, ts: Seq<TodoV>, ps: Seq<Seq<int>>)
    requires
        ts.len() == ps.len(),
        0 <= p2,
        p2 + 1 == s.len(),
        s.subrange(0, p2) == seq!['['] + items_rend(ts, ps),
        s[p2] == ']',
    ensures
        s == arr_rend(ts, ps),
{
    assert(s =~= s.subrange(0, p2) + s.subrange(p2, s.len() as int));
    assert(s.subrange(p2, s.len() as int) =~= seq![']']);
    assert(s =~= arr_rend(ts, ps));
}

/// Consuming the separating comma leaves the tail of the remaining records.
pub proof fn lemma_drop_comma(s: Seq<char>, p2: int, n: int, tail: Seq<char>)
    requires
        0 <= p2,
        p2 + 1 + tail.len() == n,
        n <= s.len(),
        s.subrange(p2, n) == seq![','] + tail,
    ensures
        s.subrange(p2 + 1, n) == tail,
{
    assert(s.subrange(p2, p2 + 1 + tail.len()) == seq![','] + tail);
    lemma_seg_split(s, p2, seq![','], tail);
}

/// Decodes a collection text: a bracketed, comma-separated sequence of
/// rendered records, each with its members in any order. Succeeds exactly
/// on such texts, and then returns the records verbatim, in wire order.
#[verifier::spinoff_prover]
#[verifier::rlimit(100)]
pub fn decode_todos_any(s: &str) -> (r: Option<Vec<crate::Todo>>)
    ensures
        r matches Some(v) ==> valid_todos(v.deep_view()) && (exists|ps: Seq<Seq<int>>|
            #[trigger] todos_rendered(s@, v.deep_view(), ps)),
        forall|ts: Seq<TodoV>, ps: Seq<Seq<int>>|
            #[trigger] todos_rendered(s@, ts, ps) ==> (r matches Some(v) && v.deep_view() == ts),
{
    proof {
        reveal_strlit("[");
        reveal_strlit("]");
        reveal_strlit(",");
        assert("["@ =~= seq!['[']);
        assert("]"@ =~= seq![']']);
        assert(","@ =~= seq![',']);
        reveal_strlit("{\"userId\":");
    }
    let n = s.unicode_len();
    let p1 = match expect_lit(s, 0, "[") {
        Some(e) => e,
        None => {
            proof {
                assert forall|ts: Seq<TodoV>, ps: Seq<Seq<int>>| #[trigger]
                    todos_rendered(s@, ts, ps) implies false by {
                    assert(s@.subrange(0, 1) =~= "["@);
                }
            }
            return None;
        },
    };
    match expect_lit(s, p1, "]") {
        Some(e) => {
            if e == n {
                let empty: Vec<crate::Todo> = Vec::new();
                proof {
                    assert(empty.deep_view().len() == 0);
                    assert(items_rend(empty.deep_view(), Seq::<Seq<int>>::empty())
                        == Seq::<char>::empty());
                    assert(s@.len() == 2);
                    assert(s@.subrange(0, 1)[0] == '[');
                    assert(s@.subrange(1, 2)[0] == ']');
                    assert(s@ =~= arr_rend(empty.deep_view(), Seq::<Seq<int>>::empty()));
                    assert(todos_rendered(s@, empty.deep_view(), Seq::<Seq<int>>::empty()));
                    assert forall|ts: Seq<TodoV>, ps: Seq<Seq<int>>| #[trigger]
                        todos_rendered(s@, ts, ps) implies empty.deep_view() == ts by {
                        if ts.len() > 0 {
                            lemma_tail_zero_r(ts, ps);
                            assert(s@[1] == tail_rend(ts, ps, 0)[0]);
                            assert(tail_rend(ts, ps, 0)[0] == '{');
                            assert(s@[1] == ']');
                            assert(false);
                        }
                        assert(empty.deep_view() =~= ts);
                    }
                }
                return Some(empty);
            } else {
                proof {
                    assert forall|ts: Seq<TodoV>, ps: Seq<Seq<int>>| #[trigger]
                        todos_rendered(s@, ts, ps) implies false by {
                        if ts.len() > 0 {
                            lemma_tail_zero_r(ts, ps);
                            assert(s@[1] == tail_rend(ts, ps, 0)[0]);
                            assert(tail_rend(ts, ps, 0)[0] == '{');
                            assert(s@[1] == ']');
                        } else {
                            assert(s@.len() == 2);
                        }
                    }
                }
                return None;
            }
        },
        None => {},
    }
    let mut acc: Vec<crate::Todo> = Vec::new();
    let ghost mut perms: Seq<Seq<int>> = Seq::<Seq<int>>::empty();
    let mut pos: usize = p1;
    proof {
        assert(s@.subrange(0, pos as int) == seq!['['] + items_rend(acc.deep_view(), perms)) by {
            assert(s@.subrange(0, pos as int) =~= seq!['['] + items_rend(acc.deep_view(), perms));
        }
        assert forall|ts: Seq<TodoV>, ps: Seq<Seq<int>>| #[trigger]
            todos_rendered(s@, ts, ps) implies ts.len() > 0 && acc.deep_view() == ts.subrange(0, 0)
            && s@.subrange(pos as int, s@.len() as int) == tail_rend(ts, ps, 0) by {
            if ts.len() == 0 {
                assert(s@.len() == 2);
                assert(s@.subrange(1, 2) =~= "]"@);
                assert(false);
            }
            lemma_tail_zero_r(ts, ps);
            assert(acc.deep_view() =~= ts.subrange(0, 0));
        }
    }
    loop
        invariant
            n == s@.len(),
            1 <= pos <= n,
            valid_todos(acc.deep_view()),
            acc.deep_view().len() == acc@.len(),
            perms.len() == acc@.len(),
            all_perm4(perms),
            s@.subrange(0, pos as int) == seq!['['] + items_rend(acc.deep_view(), perms) + (
            if acc@.len() == 0 {
                Seq::<char>::empty()
            } else {
                seq![',']
            }),
            forall|ts: Seq<TodoV>, ps: Seq<Seq<int>>| #[trigger]
                todos_rendered(s@, ts, ps) ==> {
                    &&& (acc@.len() as int) < ts.len()
                    &&& acc.deep_view() == ts.subrange(0, acc@.len() as int)
                    &&& s@.subrange(pos as int, n as int) == tail_rend(ts, ps, acc@.len() as int)
                },
        decreases n - pos,
    {
        let ghost prev_dv = acc.deep_view();
        let ghost prev_perms = perms;
        let ghost k = acc@.len() as int;
        let (t, p2) = match parse_todo_any(s, pos) {
            Some(q) => q,
            None => {
                proof {
                    assert forall|ts: Seq<TodoV>, ps: Seq<Seq<int>>| #[trigger]
                        todos_rendered(s@, ts, ps) implies false by {
                        lemma_loop_step_r(s@, pos as int, ts, ps, k);
                    }
                }
                return None;
            },
        };
        acc.push(t);
        proof {
            let pj = choose|p: Seq<int>|
                #[trigger] todo_rendered_at(s@, pos as int, t.deep_view(), p) && p2 as int == pos
                    + rtodo(t.deep_view(), p).len();
            perms = perms.push(pj);
            assert(acc.deep_view() =~= prev_dv.push(t.deep_view()));
            assert(s@.subrange(pos as int, p2 as int) == rtodo(t.deep_view(), pj));
            lemma_push_prefix(s@, pos as int, p2 as int, prev_dv, prev_perms, t.deep_view(), pj);
            assert(s@.subrange(0, p2 as int) == seq!['['] + items_rend(acc.deep_view(), perms));
        }
        if p2 == n {
            proof {
                assert forall|ts: Seq<TodoV>, ps: Seq<Seq<int>>| #[trigger]
                    todos_rendered(s@, ts, ps) implies false by {
                    lemma_loop_step_r(s@, pos as int, ts, ps, k);
                    assert(t.deep_view() == ts[k] && p2 == pos + rtodo(ts[k], ps[k]).len());
                }
            }
            return None;
        }
        let ch = s.get_char(p2);
        if ch == ']' {
            if p2 + 1 == n {
                proof {
                    lemma_close_sound(s@, p2 as int, acc.deep_view(), perms);
                    assert(todos_rendered(s@, acc.deep_view(), perms));
                    assert forall|ts: Seq<TodoV>, ps: Seq<Seq<int>>| #[trigger]
                        todos_rendered(s@, ts, ps) implies acc.deep_view() == ts by {
                        lemma_loop_step_r(s@, pos as int, ts, ps, k);
                        assert(t.deep_view() == ts[k] && p2 == pos + rtodo(ts[k], ps[k]).len());
                        if k < ts.len() - 1 {
                            assert(s@[p2 as int] == ',');
                            assert(false);
                        }
                        assert(acc.deep_view() =~= ts);
                    }
                }
                return Some(acc);
            } else {
                proof {
                    assert forall|ts: Seq<TodoV>, ps: Seq<Seq<int>>| #[trigger]
                        todos_rendered(s@, ts, ps) implies false by {
                        lemma_loop_step_r(s@, pos as int, ts, ps, k);
                        assert(t.deep_view() == ts[k] && p2 == pos + rtodo(ts[k], ps[k]).len());
                        if k < ts.len() - 1 {
                            assert(s@[p2 as int] == ',');
                            assert(false);
                        } else {
                            assert(s@.subrange(p2 as int, n as int)[0] == ']');
                            assert(p2 + 1 == n);
                        }
                    }
                }
                return None;
            }
        }
        if ch != ',' {
            proof {
                assert forall|ts: Seq<TodoV>, ps: Seq<Seq<int>>| #[trigger]
                    todos_rendered(s@, ts, ps) implies false by {
                    lemma_loop_step_r(s@, pos as int, ts, ps, k);
                    assert(t.deep_view() == ts[k] && p2 == pos + rtodo(ts[k], ps[k]).len());
                    if k == ts.len() - 1 {
                        assert(s@.subrange(p2 as int, n as int)[0] == ']');
                    } else {
                        assert(s@[p2 as int] == ',');
                    }
                }
            }
            return None;
        }
        let p3 = p2 + 1;
        proof {
            assert(s@.subrange(0, p3 as int) == seq!['['] + items_rend(acc.deep_view(), perms)
                + seq![',']) by {
                assert(s@.subrange(p2 as int, p3 as int) =~= seq![',']);
                assert(s@.subrange(0, p3 as int) =~= s@.subrange(0, p2 as int) + s@.subrange(
                    p2 as int,
                    p3 as int,
                ));
            }
            assert forall|ts: Seq<TodoV>, ps: Seq<Seq<int>>| #[trigger]
                todos_rendered(s@, ts, ps) implies (acc@.len() as int) < ts.len()
                && acc.deep_view() == ts.subrange(0, acc@.len() as int) && s@.subrange(
                p3 as int,
                n as int,
            ) == tail_rend(ts, ps, acc@.len() as int) by {
                lemma_loop_step_r(s@, pos as int, ts, ps, k);
                assert(t.deep_view() == ts[k] && p2 == pos + rtodo(ts[k], ps[k]).len());
                if k == ts.len() - 1 {
                    assert(s@.subrange(p2 as int, n as int)[0] == ']');
                    assert(false);
                }
                assert(s@.subrange(p2 as int, n as int) == seq![','] + tail_rend(ts, ps, k + 1));
                assert(n - p2 == (seq![','] + tail_rend(ts, ps, k + 1)).len());
                lemma_drop_comma(s@, p2 as int, n as int, tail_rend(ts, ps, k + 1));
                assert(s@.subrange(p3 as int, n as int) == tail_rend(ts, ps, k + 1));
                assert(acc.deep_view() =~= ts.subrange(0, k + 1));
            }
        }
        pos = p3;
    }
}

} // verus!
