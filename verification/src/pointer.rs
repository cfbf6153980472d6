//! JSON Pointer: the path syntax by which the fragment of a reference names
//! a value inside a document.

use crate::json::find_spelled;
use crate::json::items_model;
use crate::json::lookup;
use crate::json::members_model;
use crate::json::Json;
use crate::json::Tree;
use crate::text::chars_of;
use vstd::prelude::*;

verus! {

/// `text` with each occurrence of `first` followed by `second` replaced by
/// `by`, reading from the left.
pub open spec fn replace_pair(text: Seq<char>, first: char, second: char, by: char) -> Seq<char>
    decreases text.len(),
{
    if text.len() < 2 {
        text
    } else if text[0] == first && text[1] == second {
        seq![by] + replace_pair(text.skip(2), first, second, by)
    } else {
        seq![text[0]] + replace_pair(text.skip(1), first, second, by)
    }
}

/// A reference token with its escapes undone: `~1` stands for `/`, and
/// then `~0` for `~`.
pub open spec fn unescape(token: Seq<char>) -> Seq<char> {
    replace_pair(replace_pair(token, '~', '1', '/'), '~', '0', '~')
}

/// Whether `c` is a decimal digit.
pub open spec fn is_digit(c: char) -> bool {
    '0' <= c <= '9'
}

/// The number that the first `n` characters of `digits` write in decimal.
pub open spec fn decimal(digits: Seq<char>, n: int) -> nat
    decreases n,
{
    if n <= 0 {
        0
    } else {
        decimal(digits, n - 1) * 10 + ((digits[n - 1] as u32 - '0' as u32) as nat)
    }
}

/// The array index that `token` writes: decimal digits only, at least one,
/// and no leading zero but in `0` itself.
pub open spec fn array_index(token: Seq<char>) -> Option<nat> {
    if token.len() == 0 {
        None
    } else if token[0] == '0' && token.len() != 1 {
        None
    } else if forall|i: int| 0 <= i < token.len() ==> is_digit(#[trigger] token[i]) {
        Some(decimal(token, token.len() as int))
    } else {
        None
    }
}

/// The value that `token` names directly under `node`.
pub open spec fn step(node: Tree, token: Seq<char>) -> Option<Tree> {
    match node {
        Tree::Object(members) => lookup(members, token),
        Tree::Array(items) => match array_index(token) {
            Some(index) => if index < items.len() {
                Some(items[index as int])
            } else {
                None
            },
            None => None,
        },
        _ => None,
    }
}

/// The position of the first `/` at or after `i`; the length of `text`
/// where there is none.
pub open spec fn token_end(text: Seq<char>, i: int) -> int
    decreases text.len() - i,
{
    if i >= text.len() {
        text.len() as int
    } else if text[i] == '/' {
        i
    } else {
        token_end(text, i + 1)
    }
}

/// The value reached from `node` by the reference tokens of `text` from
/// position `start` on, where a token begins at `start`.
pub open spec fn follow(node: Tree, text: Seq<char>, start: int) -> Option<Tree>
    decreases text.len() - start,
{
    let end = token_end(text, start);
    if start < 0 || start > text.len() || end < start {
        None
    } else {
        match step(node, unescape(text.subrange(start, end))) {
            None => None,
            Some(next) => if end >= text.len() {
                Some(next)
            } else {
                follow(next, text, end + 1)
            },
        }
    }
}

/// The value that the pointer `text` names in `document`: the document
/// itself for the empty pointer, nothing for a pointer that does not begin
/// with `/`, and otherwise what its tokens lead to, one after the other.
pub open spec fn pointer_target(document: Tree, text: Seq<char>) -> Option<Tree> {
    if text.len() == 0 {
        Some(document)
    } else if text[0] != '/' {
        None
    } else {
        follow(document, text, 1)
    }
}

/// Computes [`replace_pair`].
pub fn replace_pair_in(text: &Vec<char>, first: char, second: char, by: char) -> (r: Vec<char>)
    ensures
        r@ == replace_pair(text@, first, second, by),
{
    let mut out: Vec<char> = Vec::new();
    let mut i: usize = 0;
    assert(text@.skip(0) == text@);
    assert(out@ + replace_pair(text@, first, second, by) == replace_pair(text@, first, second, by));
    while i < text.len()
        invariant
            i <= text.len(),
            replace_pair(text@, first, second, by) == out@ + replace_pair(
                text@.skip(i as int),
                first,
                second,
                by,
            ),
        decreases text.len() - i,
    {
        let ghost rest = text@.skip(i as int);
        let ghost before = out@;
        if i + 1 < text.len() && text[i] == first && text[i + 1] == second {
            out.push(by);
            assert(rest.skip(2) == text@.skip(i + 2));
            assert(out@ + replace_pair(text@.skip(i + 2), first, second, by) == before + (seq![by]
                + replace_pair(rest.skip(2), first, second, by)));
            i += 2;
        } else {
            out.push(text[i]);
            assert(rest.skip(1) == text@.skip(i + 1));
            assert(rest.len() < 2 ==> replace_pair(rest.skip(1), first, second, by)
                == Seq::<char>::empty());
            assert(rest.len() < 2 ==> rest == seq![rest[0]]);
            assert(out@ + replace_pair(text@.skip(i + 1), first, second, by) == before + (seq![
                rest[0],
            ] + replace_pair(rest.skip(1), first, second, by)));
            i += 1;
        }
    }
    assert(text@.skip(i as int).len() == 0);
    out
}

/// Undoes the escapes of a reference token.
pub fn unescape_token(token: &Vec<char>) -> (r: Vec<char>)
    ensures
        r@ == unescape(token@),
{
    let slashes = replace_pair_in(token, '~', '1', '/');
    replace_pair_in(&slashes, '~', '0', '~')
}

/// Every number that a prefix of decimal digits writes is at most the
/// number that the whole writes.
pub proof fn decimal_grows(digits: Seq<char>, m: int, n: int)
    requires
        0 <= m <= n <= digits.len(),
        forall|i: int| 0 <= i < digits.len() ==> is_digit(#[trigger] digits[i]),
    ensures
        decimal(digits, m) <= decimal(digits, n),
    decreases n - m,
{
    if m < n {
        decimal_grows(digits, m, n - 1);
    }
}

/// The array index that `token` writes, where it is below `len`.
pub fn index_below(token: &Vec<char>, len: usize) -> (r: Option<usize>)
    ensures
        match r {
            Some(index) => index < len && array_index(token@) == Some(index as nat),
            None => match array_index(token@) {
                Some(index) => index >= len,
                None => true,
            },
        },
{
    if token.len() == 0 {
        return None;
    }
    if token[0] == '0' && token.len() != 1 {
        return None;
    }
    let mut i: usize = 0;
    while i < token.len()
        invariant
            i <= token.len(),
            forall|k: int| 0 <= k < i ==> is_digit(#[trigger] token@[k]),
        decreases token.len() - i,
    {
        if !('0' <= token[i] && token[i] <= '9') {
            return None;
        }
        i += 1;
    }
    let mut value: usize = 0;
    let mut j: usize = 0;
    while j < token.len()
        invariant
            j <= token.len(),
            forall|k: int| 0 <= k < token.len() ==> is_digit(#[trigger] token@[k]),
            value == decimal(token@, j as int),
            value < len || j == 0,
        decreases token.len() - j,
    {
        assert(is_digit(token@[j as int]));
        let digit: u32 = token[j] as u32 - '0' as u32;
        let next: u128 = (value as u128) * 10 + (digit as u128);
        proof {
            decimal_grows(token@, j + 1, token.len() as int);
        }
        if next >= len as u128 {
            return None;
        }
        value = next as usize;
        j += 1;
    }
    Some(value)
}

/// The value that `token` names directly under `node`.
pub fn step_into<'a>(node: &'a Json, token: &Vec<char>) -> (r: Option<&'a Json>)
    ensures
        match r {
            Some(value) => step(node@, token@) == Some(value@),
            None => step(node@, token@) is None,
        },
{
    match node {
        Json::Object(members) => match find_spelled(members, token) {
            Some(i) => {
                let value = &members[i].1;
                assert(members_model(members@)[i as int].1 == value@);
                Some(value)
            },
            None => None,
        },
        Json::Array(items) => match index_below(token, items.len()) {
            Some(i) => {
                let value = &items[i];
                assert(items_model(items@)[i as int] == value@);
                Some(value)
            },
            None => {
                assert(items_model(items@).len() == items.len());
                None
            },
        },
        _ => None,
    }
}

/// The characters of `text` from `start` up to `end`.
pub fn slice_of(text: &Vec<char>, start: usize, end: usize) -> (r: Vec<char>)
    requires
        start <= end <= text.len(),
    ensures
        r@ == text@.subrange(start as int, end as int),
{
    let mut out: Vec<char> = Vec::new();
    let mut i: usize = start;
    while i < end
        invariant
            start <= i <= end <= text.len(),
            out@ == text@.subrange(start as int, i as int),
        decreases end - i,
    {
        out.push(text[i]);
        i += 1;
    }
    out
}

/// The value that the pointer `text` names in `document`.
pub fn pointer<'a>(document: &'a Json, text: &str) -> (r: Option<&'a Json>)
    ensures
        match r {
            Some(value) => pointer_target(document@, text@) == Some(value@),
            None => pointer_target(document@, text@) is None,
        },
{
    let chars = chars_of(text);
    if chars.len() == 0 {
        return Some(document);
    }
    if chars[0] != '/' {
        return None;
    }
    let mut node: &Json = document;
    let mut start: usize = 1;
    loop
        invariant
            chars@ == text@,
            1 <= start <= chars.len(),
            pointer_target(document@, text@) == follow(node@, text@, start as int),
        decreases chars.len() - start,
    {
        let mut end: usize = start;
        while end < chars.len() && chars[end] != '/'
            invariant
                start <= end <= chars.len(),
                token_end(chars@, start as int) == token_end(chars@, end as int),
            decreases chars.len() - end,
        {
            end += 1;
        }
        let raw = slice_of(&chars, start, end);
        let token = unescape_token(&raw);
        match step_into(node, &token) {
            None => {
                return None;
            },
            Some(next) => {
                if end >= chars.len() {
                    return Some(next);
                }
                node = next;
                start = end + 1;
            },
        }
    }
}

} // verus!
