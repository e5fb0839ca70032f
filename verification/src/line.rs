//! The line classifier: decides what one raw line of an INI file means.
//!
//! Rules, checked in order on the trimmed line: empty lines are blank; a
//! leading ';' marks a comment; a leading '[' must pair with a trailing ']'
//! to name a group; otherwise the line must carry a '=' and is split at its
//! first occurrence into a variable and a value; anything else is invalid.

use vstd::prelude::*;
use crate::chars::find_char;
use crate::chars::find_char_in;
use crate::chars::lemma_find_char_props;
use crate::chars::string_from_chars;
use crate::chars::subvec;
use crate::chars::trim_chars;
use crate::chars::trim_end_chars;
use crate::chars::trim_end_spec;
use crate::chars::trim_spec;
use crate::chars::trim_start_chars;
use crate::chars::trim_start_spec;

verus! {

/// The classification of one line, at the specification level.
pub enum LineClassView {
    Blank,
    Comment,
    Group(Seq<char>),
    Assignment(Seq<char>, Seq<char>),
    BadHeader,
    MissingVariable,
    Invalid,
}

/// The classification of one line: blank, comment, a group header carrying
/// the trimmed group name, an assignment carrying the variable and the
/// value, or one of the three malformed shapes.
pub enum LineClass {
    Blank,
    Comment,
    Group(String),
    Assignment(String, String),
    BadHeader,
    MissingVariable,
    Invalid,
}

impl View for LineClass {
    type V = LineClassView;

    open spec fn view(&self) -> LineClassView {
        match self {
            LineClass::Blank => LineClassView::Blank,
            LineClass::Comment => LineClassView::Comment,
            LineClass::Group(name) => LineClassView::Group(name@),
            LineClass::Assignment(var, val) => LineClassView::Assignment(var@, val@),
            LineClass::BadHeader => LineClassView::BadHeader,
            LineClass::MissingVariable => LineClassView::MissingVariable,
            LineClass::Invalid => LineClassView::Invalid,
        }
    }
}

/// What a raw line means. The group name is the trimmed text between the
/// brackets; an assignment splits at the first '=', the variable
/// right-trimmed and the value left-trimmed, so values may contain '='.
pub open spec fn classify_spec(raw: Seq<char>) -> LineClassView {
    let t = trim_spec(raw);
    if t.len() == 0 {
        LineClassView::Blank
    } else if t[0] == ';' {
        LineClassView::Comment
    } else if t[0] == '[' {
        if t.last() == ']' {
            LineClassView::Group(trim_spec(t.subrange(1, t.len() - 1)))
        } else {
            LineClassView::BadHeader
        }
    } else if find_char(t, '=') < t.len() {
        let key = trim_end_spec(t.take(find_char(t, '=')));
        if key.len() == 0 {
            LineClassView::MissingVariable
        } else {
            LineClassView::Assignment(key, trim_start_spec(t.skip(find_char(t, '=') + 1)))
        }
    } else {
        LineClassView::Invalid
    }
}

/// Classifies one raw line; agrees with [`classify_spec`].
pub fn classify(raw: &Vec<char>) -> (r: LineClass)
    ensures
        r@ == classify_spec(raw@),
{
    let t = trim_chars(raw);
    let n = t.len();
    if n == 0 {
        return LineClass::Blank;
    }
    if t[0] == ';' {
        return LineClass::Comment;
    }
    if t[0] == '[' {
        if t[n - 1] == ']' {
            let inner = subvec(&t, 1, n - 1);
            let name = trim_chars(&inner);
            return LineClass::Group(string_from_chars(&name));
        }
        return LineClass::BadHeader;
    }
    let fe = find_char_in(&t, '=');
    proof {
        lemma_find_char_props(t@, '=');
    }
    if fe < n {
        let keypart = subvec(&t, 0, fe);
        let key = trim_end_chars(&keypart);
        proof {
            assert(keypart@ =~= t@.take(fe as int));
        }
        if key.len() == 0 {
            return LineClass::MissingVariable;
        }
        let valpart = subvec(&t, fe + 1, n);
        let val = trim_start_chars(&valpart);
        proof {
            assert(valpart@ =~= t@.skip(fe as int + 1));
        }
        return LineClass::Assignment(string_from_chars(&key), string_from_chars(&val));
    }
    LineClass::Invalid
}

/// Values may contain '='. A trimmed line built as `key ++ "=" ++ val`,
/// where the key part contains no '=', splits at exactly that first '=':
/// the variable is the right-trimmed key part and the value is the
/// left-trimmed `val`, every later '=' preserved inside it.
pub proof fn lemma_assignment_splits_at_first_eq(key: Seq<char>, val: Seq<char>)
    requires
        forall|i: int| 0 <= i < key.len() ==> key[i] != '=',
        trim_end_spec(key).len() > 0,
        key[0] != ';',
        key[0] != '[',
        trim_spec(key + seq!['='] + val) == key + seq!['='] + val,
    ensures
        classify_spec(key + seq!['='] + val) == LineClassView::Assignment(
            trim_end_spec(key),
            trim_start_spec(val),
        ),
{
    let l = key + seq!['='] + val;
    lemma_find_char_props(l, '=');
    if key.len() == 0 {
        assert(trim_end_spec(key) == key);
    }
    assert(key.len() > 0);
    assert(l[key.len() as int] == '=');
    assert(forall|i: int| 0 <= i < key.len() ==> l[i] == key[i]);
    let fe = find_char(l, '=');
    assert(fe == key.len()) by {
        if fe < key.len() {
            assert(l[fe] == '=');
            assert(key[fe] != '=');
        }
        if fe > key.len() {
            assert(l[key.len() as int] != '=');
        }
    }
    assert(l.take(fe) =~= key);
    assert(l.skip(fe + 1) =~= val);
    assert(l[0] == key[0]);
}

} // verus!
