//! The flat wire shape: a JSON object that carries the correlation
//! identifier in a reserved member beside the payload's own members.
//!
//! The text is read leniently: members are told apart by quotes, escapes and
//! nesting alone, and what a member's value holds is not examined.

use vstd::prelude::*;
use vstd::string::StrSliceExecFns;
use vstd::string::StringExecFns;

verus! {

/// The characters of a text.
pub fn chars_of(text: &str) -> (chars: Vec<char>)
    ensures
        chars@ == text@,
{
    let mut chars: Vec<char> = Vec::new();
    for c in it: text.chars()
        invariant
            chars@ == it.seq().take(it.index() as int),
            it.seq() == text@,
    {
        chars.push(c);
    }
    chars
}

/// The reserved key, as it stands in the text: `"@extra"`.
pub open spec fn reserved_key() -> Seq<char> {
    seq!['"', '@', 'e', 'x', 't', 'r', 'a', '"']
}

/// What every tagged object starts with: `{"@extra":"`.
pub open spec fn tag_head() -> Seq<char> {
    seq!['{'] + reserved_key() + seq![':', '"']
}

pub open spec fn is_space(c: char) -> bool {
    c == ' ' || c == '\t' || c == '\n' || c == '\r'
}

/// Whether the text holds white space only.
pub open spec fn blank(s: Seq<char>) -> bool {
    forall|i: int| 0 <= i < s.len() ==> is_space(#[trigger] s[i])
}

/// The first position from `at` on that holds no white space.
pub open spec fn space_end(s: Seq<char>, at: int) -> int
    decreases s.len() - at,
{
    if 0 <= at < s.len() && is_space(s[at]) {
        space_end(s, at + 1)
    } else {
        at
    }
}

/// The position after the quote that closes a string literal, read from a
/// position inside the literal. A backslash takes the next character with it.
pub open spec fn literal_end(s: Seq<char>, at: int) -> Option<int>
    decreases s.len() - at,
{
    if at < 0 || at >= s.len() {
        None
    } else if s[at] == '"' {
        Some(at + 1)
    } else if s[at] == '\\' {
        if at + 2 <= s.len() {
            literal_end(s, at + 2)
        } else {
            None
        }
    } else {
        literal_end(s, at + 1)
    }
}

/// The position of the `,` or `}` that ends a member's value, read from a
/// position inside the value at nesting depth `depth`. String literals are
/// passed over whole; brackets and braces are counted, not paired.
pub open spec fn value_end(s: Seq<char>, at: int, depth: nat) -> Option<int>
    decreases s.len() - at,
{
    if at < 0 || at >= s.len() {
        None
    } else if s[at] == '"' {
        match literal_end(s, at + 1) {
            Some(after) => if at < after <= s.len() {
                value_end(s, after, depth)
            } else {
                None
            },
            None => None,
        }
    } else if s[at] == '{' || s[at] == '[' {
        value_end(s, at + 1, depth + 1)
    } else if s[at] == '}' || s[at] == ']' {
        if depth > 0 {
            value_end(s, at + 1, (depth - 1) as nat)
        } else if s[at] == '}' {
            Some(at)
        } else {
            None
        }
    } else if s[at] == ',' && depth == 0 {
        Some(at)
    } else {
        value_end(s, at + 1, depth)
    }
}

/// Where a member stands in the text.
pub struct Member {
    /// Where the member was looked for: after `{` or after a `,`.
    pub from: int,
    /// The quote that opens the key.
    pub key: int,
    /// The position after the quote that closes the key.
    pub key_end: int,
    /// The colon.
    pub colon: int,
    /// The `,` or `}` after the value.
    pub end: int,
}

/// The member that is found from `at` on.
pub open spec fn member_at(s: Seq<char>, at: int) -> Option<Member> {
    let key = space_end(s, at);
    if 0 <= key < s.len() && s[key] == '"' {
        match literal_end(s, key + 1) {
            Some(key_end) => {
                let colon = space_end(s, key_end);
                if 0 <= colon < s.len() && s[colon] == ':' {
                    match value_end(s, colon + 1, 0) {
                        Some(end) => Some(Member { from: at, key, key_end, colon, end }),
                        None => None,
                    }
                } else {
                    None
                }
            },
            None => None,
        }
    } else {
        None
    }
}

/// The first member from `at` on whose key is the reserved one.
pub open spec fn reserved_member(s: Seq<char>, at: int) -> Option<Member>
    decreases s.len() - at,
{
    match member_at(s, at) {
        Some(m) => if s.subrange(m.key, m.key_end) == reserved_key() {
            Some(m)
        } else if at <= m.end < s.len() && s[m.end] == ',' {
            reserved_member(s, m.end + 1)
        } else {
            None
        },
        None => None,
    }
}

/// The text without a member: the member's own comma goes with it, or the
/// comma before it where it is the last of several.
pub open spec fn without_member(s: Seq<char>, open: int, m: Member) -> Seq<char> {
    if s[m.end] == ',' {
        s.subrange(0, m.from) + s.subrange(m.end + 1, s.len() as int)
    } else if m.from == open + 1 {
        s.subrange(0, m.from) + s.subrange(m.end, s.len() as int)
    } else {
        s.subrange(0, m.from - 1) + s.subrange(m.end, s.len() as int)
    }
}

/// Why a text is not a tagged object.
#[derive(Clone, Copy, Debug, PartialEq, Eq, Structural)]
pub enum WireError {
    /// The text is not a JSON document.
    NotJson,
    /// The text does not open with `{`.
    NotAnObject,
    /// No member with the reserved key is found.
    MissingId,
    /// The reserved member does not hold a string literal alone.
    MalformedId,
}

/// A tagged object, taken apart.
pub struct Parts {
    /// The text between the quotes of the reserved member's value.
    pub id: Seq<char>,
    /// The object without the reserved member.
    pub rest: Seq<char>,
}

/// Takes a tagged object apart.
pub open spec fn split(s: Seq<char>) -> Result<Parts, WireError> {
    let open = space_end(s, 0);
    if 0 <= open < s.len() && s[open] == '{' {
        match reserved_member(s, open + 1) {
            Some(m) => {
                let quote = space_end(s, m.colon + 1);
                if 0 <= quote < s.len() && s[quote] == '"' {
                    match literal_end(s, quote + 1) {
                        Some(after) => if space_end(s, after) == m.end {
                            Ok(
                                Parts {
                                    id: s.subrange(quote + 1, after - 1),
                                    rest: without_member(s, open, m),
                                },
                            )
                        } else {
                            Err(WireError::MalformedId)
                        },
                        None => Err(WireError::MalformedId),
                    }
                } else {
                    Err(WireError::MalformedId)
                }
            },
            None => Err(WireError::MissingId),
        }
    } else {
        Err(WireError::NotAnObject)
    }
}

/// The position after the last character before `end` that is no white
/// space.
pub open spec fn text_end(s: Seq<char>, end: int) -> int
    decreases end,
{
    if 0 < end <= s.len() && is_space(s[end - 1]) {
        text_end(s, end - 1)
    } else {
        end
    }
}

/// The text without the white space around it.
pub open spec fn trimmed(s: Seq<char>) -> Seq<char> {
    let from = space_end(s, 0);
    let to = text_end(s, s.len() as int);
    if from <= to {
        s.subrange(from, to)
    } else {
        Seq::empty()
    }
}

/// Whether a payload text can be merged into a tagged object: without the
/// white space around it, it is `null`, which has no members, or it opens
/// with `{` and closes with `}`.
pub open spec fn flat(data: Seq<char>) -> bool {
    trimmed(data) == seq!['n', 'u', 'l', 'l'] || is_object(trimmed(data))
}

/// Whether a text opens with `{` and closes with `}`.
pub open spec fn is_object(data: Seq<char>) -> bool {
    data.len() >= 2 && data[0] == '{' && data[data.len() - 1] == '}'
}

/// The reserved member joined with the members of an object text: the
/// reserved member first, then the text from behind its opening brace. A
/// text with white space alone between its braces has no members.
pub open spec fn joined(id: Seq<char>, object: Seq<char>) -> Seq<char> {
    if is_object(object) && !blank(object.subrange(1, object.len() - 1)) {
        tag_head() + id + seq!['"', ','] + object.skip(1)
    } else {
        tag_head() + id + seq!['"', '}']
    }
}

/// The tagged object for an identifier text and a payload: the reserved
/// member first, then the payload's own members. White space around the
/// payload is left out.
pub open spec fn tagged(id: Seq<char>, data: Seq<char>) -> Seq<char> {
    joined(id, trimmed(data))
}

/// White space never runs past the end of the text.
pub proof fn lemma_space_end(s: Seq<char>, at: int)
    requires
        0 <= at <= s.len(),
    ensures
        at <= space_end(s, at) <= s.len(),
    decreases s.len() - at,
{
    if at < s.len() && is_space(s[at]) {
        lemma_space_end(s, at + 1);
    }
}

/// A literal closes after the position it is read from, within the text.
pub proof fn lemma_literal_end(s: Seq<char>, at: int)
    requires
        0 <= at <= s.len(),
    ensures
        literal_end(s, at) is Some ==> at < literal_end(s, at)->0 <= s.len(),
    decreases s.len() - at,
{
    if at < s.len() && s[at] != '"' {
        if s[at] == '\\' {
            if at + 2 <= s.len() {
                lemma_literal_end(s, at + 2);
            }
        } else {
            lemma_literal_end(s, at + 1);
        }
    }
}

/// A value ends at a `,` or a `}` of the text, not before where it is read
/// from.
pub proof fn lemma_value_end(s: Seq<char>, at: int, depth: nat)
    requires
        0 <= at <= s.len(),
    ensures
        value_end(s, at, depth) is Some ==> at <= value_end(s, at, depth)->0 < s.len() && (s[value_end(
            s,
            at,
            depth,
        )->0] == ',' || s[value_end(s, at, depth)->0] == '}'),
    decreases s.len() - at,
{
    if at < s.len() {
        if s[at] == '"' {
            match literal_end(s, at + 1) {
                Some(after) => {
                    if at < after <= s.len() {
                        lemma_value_end(s, after, depth);
                    }
                },
                None => {},
            }
        } else if s[at] == '{' || s[at] == '[' {
            lemma_value_end(s, at + 1, depth + 1);
        } else if s[at] == '}' || s[at] == ']' {
            if depth > 0 {
                lemma_value_end(s, at + 1, (depth - 1) as nat);
            }
        } else if s[at] == ',' && depth == 0 {
        } else {
            lemma_value_end(s, at + 1, depth);
        }
    }
}

/// A member found in the text lies in it, in the order of its parts.
pub proof fn lemma_member_at(s: Seq<char>, at: int)
    requires
        0 <= at <= s.len(),
    ensures
        match member_at(s, at) {
            Some(m) => m.from == at && at <= m.key < m.key_end <= m.colon < m.end < s.len() && (
            s[m.end] == ',' || s[m.end] == '}'),
            None => true,
        },
{
    lemma_space_end(s, at);
    let key = space_end(s, at);
    if key < s.len() && s[key] == '"' {
        lemma_literal_end(s, key + 1);
        match literal_end(s, key + 1) {
            Some(key_end) => {
                lemma_space_end(s, key_end);
                let colon = space_end(s, key_end);
                if colon < s.len() {
                    lemma_value_end(s, colon + 1, 0);
                }
            },
            None => {},
        }
    }
}

/// The reserved member, where one is found, lies in the text after `at`.
pub proof fn lemma_reserved_member(s: Seq<char>, at: int)
    requires
        0 <= at <= s.len(),
    ensures
        match reserved_member(s, at) {
            Some(m) => at <= m.from <= m.key < m.key_end <= m.colon < m.end < s.len() && (s[m.end]
                == ',' || s[m.end] == '}') && s.subrange(m.key, m.key_end) == reserved_key(),
            None => true,
        },
    decreases s.len() - at,
{
    lemma_member_at(s, at);
    match member_at(s, at) {
        Some(m) => {
            if s.subrange(m.key, m.key_end) != reserved_key() && s[m.end] == ',' {
                lemma_reserved_member(s, m.end + 1);
            }
        },
        None => {},
    }
}

fn skip_space(chars: &Vec<char>, at: usize) -> (end: usize)
    requires
        at <= chars.len(),
    ensures
        end == space_end(chars@, at as int),
        at <= end <= chars.len(),
{
    let mut i: usize = at;
    while i < chars.len() && (chars[i] == ' ' || chars[i] == '\t' || chars[i] == '\n' || chars[i]
        == '\r')
        invariant
            at <= i <= chars.len(),
            space_end(chars@, at as int) == space_end(chars@, i as int),
        decreases chars.len() - i,
    {
        i = i + 1;
    }
    i
}

fn close_literal(chars: &Vec<char>, at: usize) -> (end: Option<usize>)
    requires
        at <= chars.len(),
    ensures
        match end {
            Some(e) => literal_end(chars@, at as int) == Some(e as int) && at < e <= chars.len(),
            None => literal_end(chars@, at as int) is None,
        },
{
    let mut i: usize = at;
    while i < chars.len()
        invariant
            at <= i <= chars.len(),
            literal_end(chars@, at as int) == literal_end(chars@, i as int),
        decreases chars.len() - i,
    {
        let c = chars[i];
        if c == '"' {
            return Some(i + 1);
        }
        if c == '\\' {
            if chars.len() - i >= 2 {
                i = i + 2;
            } else {
                return None;
            }
        } else {
            i = i + 1;
        }
    }
    None
}

fn close_value(chars: &Vec<char>, at: usize) -> (end: Option<usize>)
    requires
        at <= chars.len(),
    ensures
        match end {
            Some(e) => value_end(chars@, at as int, 0) == Some(e as int) && at <= e < chars.len(),
            None => value_end(chars@, at as int, 0) is None,
        },
{
    let mut i: usize = at;
    let mut depth: usize = 0;
    while i < chars.len()
        invariant
            at <= i <= chars.len(),
            depth <= i - at,
            value_end(chars@, at as int, 0) == value_end(chars@, i as int, depth as nat),
        decreases chars.len() - i,
    {
        let c = chars[i];
        if c == '"' {
            match close_literal(chars, i + 1) {
                Some(after) => {
                    i = after;
                },
                None => {
                    return None;
                },
            }
        } else if c == '{' || c == '[' {
            depth = depth + 1;
            i = i + 1;
        } else if c == '}' || c == ']' {
            if depth > 0 {
                depth = depth - 1;
                i = i + 1;
            } else if c == '}' {
                return Some(i);
            } else {
                return None;
            }
        } else if c == ',' && depth == 0 {
            return Some(i);
        } else {
            i = i + 1;
        }
    }
    None
}

/// Where a member stands in the characters.
struct Found {
    from: usize,
    key: usize,
    key_end: usize,
    colon: usize,
    end: usize,
}

impl Found {
    spec fn place(self) -> Member {
        Member {
            from: self.from as int,
            key: self.key as int,
            key_end: self.key_end as int,
            colon: self.colon as int,
            end: self.end as int,
        }
    }
}

fn read_member(chars: &Vec<char>, at: usize) -> (found: Option<Found>)
    requires
        at <= chars.len(),
    ensures
        match found {
            Some(f) => member_at(chars@, at as int) == Some(f.place()),
            None => member_at(chars@, at as int) is None,
        },
{
    let key = skip_space(chars, at);
    if key < chars.len() && chars[key] == '"' {
        match close_literal(chars, key + 1) {
            Some(key_end) => {
                let colon = skip_space(chars, key_end);
                if colon < chars.len() && chars[colon] == ':' {
                    match close_value(chars, colon + 1) {
                        Some(end) => Some(Found { from: at, key, key_end, colon, end }),
                        None => None,
                    }
                } else {
                    None
                }
            },
            None => None,
        }
    } else {
        None
    }
}

fn is_reserved(chars: &Vec<char>, from: usize, to: usize) -> (same: bool)
    requires
        from <= to <= chars.len(),
    ensures
        same == (chars@.subrange(from as int, to as int) == reserved_key()),
{
    if to - from != 8 {
        assert(chars@.subrange(from as int, to as int).len() != reserved_key().len());
        return false;
    }
    let same = chars[from] == '"' && chars[from + 1] == '@' && chars[from + 2] == 'e' && chars[from
        + 3] == 'x' && chars[from + 4] == 't' && chars[from + 5] == 'r' && chars[from + 6] == 'a'
        && chars[from + 7] == '"';
    proof {
        let key = chars@.subrange(from as int, to as int);
        if same {
            assert(key =~= reserved_key());
        } else {
            assert(key[0] == chars@[from + 0] && key[1] == chars@[from + 1] && key[2] == chars@[from
                + 2] && key[3] == chars@[from + 3] && key[4] == chars@[from + 4] && key[5]
                == chars@[from + 5] && key[6] == chars@[from + 6] && key[7] == chars@[from + 7]);
        }
    }
    same
}

fn find_reserved(chars: &Vec<char>, at: usize) -> (found: Option<Found>)
    requires
        at <= chars.len(),
    ensures
        match found {
            Some(f) => reserved_member(chars@, at as int) == Some(f.place()),
            None => reserved_member(chars@, at as int) is None,
        },
{
    let mut from: usize = at;
    while from <= chars.len()
        invariant
            at <= from <= chars.len(),
            reserved_member(chars@, at as int) == reserved_member(chars@, from as int),
        decreases chars.len() - from,
    {
        proof {
            lemma_member_at(chars@, from as int);
        }
        match read_member(chars, from) {
            Some(f) => {
                if is_reserved(chars, f.key, f.key_end) {
                    return Some(f);
                } else if chars[f.end] == ',' {
                    from = f.end + 1;
                } else {
                    return None;
                }
            },
            None => {
                return None;
            },
        }
    }
    None
}

/// A tagged object, taken apart.
#[derive(Debug, PartialEq, Eq)]
pub struct Split {
    /// The text between the quotes of the reserved member's value.
    pub id: String,
    /// The object without the reserved member.
    pub rest: String,
}

/// Takes a tagged object apart: finds the first member with the reserved
/// key and hands out the text of its identifier and the object without it.
pub fn split_text(text: &str) -> (out: Result<Split, WireError>)
    ensures
        match out {
            Ok(parts) => split(text@) == Ok::<Parts, WireError>(
                Parts { id: parts.id@, rest: parts.rest@ },
            ),
            Err(e) => split(text@) == Err::<Parts, WireError>(e),
        },
{
    let chars = chars_of(text);
    let len = chars.len();
    let open = skip_space(&chars, 0);
    if !(open < len && chars[open] == '{') {
        return Err(WireError::NotAnObject);
    }
    proof {
        lemma_reserved_member(chars@, open + 1);
    }
    let found = match find_reserved(&chars, open + 1) {
        Some(f) => f,
        None => {
            return Err(WireError::MissingId);
        },
    };
    let quote = skip_space(&chars, found.colon + 1);
    if !(quote < len && chars[quote] == '"') {
        return Err(WireError::MalformedId);
    }
    let after = match close_literal(&chars, quote + 1) {
        Some(after) => after,
        None => {
            return Err(WireError::MalformedId);
        },
    };
    if skip_space(&chars, after) != found.end {
        return Err(WireError::MalformedId);
    }
    let id = String::from_str(text.substring_char(quote + 1, after - 1));
    let rest = if chars[found.end] == ',' {
        String::from_str(text.substring_char(0, found.from)).concat(
            text.substring_char(found.end + 1, len),
        )
    } else if found.from == open + 1 {
        String::from_str(text.substring_char(0, found.from)).concat(
            text.substring_char(found.end, len),
        )
    } else {
        String::from_str(text.substring_char(0, found.from - 1)).concat(
            text.substring_char(found.end, len),
        )
    };
    Ok(Split { id, rest })
}

/// Whether a text holds neither a quote nor a backslash, so that it stands
/// between quotes as it is.
pub open spec fn plain(s: Seq<char>) -> bool {
    forall|i: int| 0 <= i < s.len() ==> #[trigger] s[i] != '"' && s[i] != '\\'
}

/// A literal whose remaining characters are plain closes at its quote.
pub proof fn lemma_plain_literal(s: Seq<char>, at: int, quote: int)
    requires
        0 <= at <= quote < s.len(),
        s[quote] == '"',
        forall|i: int| at <= i < quote ==> #[trigger] s[i] != '"' && s[i] != '\\',
    ensures
        literal_end(s, at) == Some(quote + 1),
    decreases quote - at,
{
    if at < quote {
        lemma_plain_literal(s, at + 1, quote);
    }
}

/// Joining and taking apart are inverse on an object text.
proof fn lemma_split_joined(id: Seq<char>, data: Seq<char>)
    requires
        plain(id),
        is_object(data),
        blank(data.subrange(1, data.len() - 1)) ==> data.len() == 2,
    ensures
        split(joined(id, data)) == Ok::<Parts, WireError>(Parts { id, rest: data }),
{
    let s = joined(id, data);
    let n = id.len() as int;
    let merged = !blank(data.subrange(1, data.len() - 1));
    assert(s.len() >= 13 + n);
    assert(s[0] == '{' && s[1] == '"' && s[2] == '@' && s[3] == 'e' && s[4] == 'x' && s[5] == 't'
        && s[6] == 'r' && s[7] == 'a' && s[8] == '"' && s[9] == ':' && s[10] == '"');
    assert forall|i: int| 0 <= i < n implies #[trigger] s[11 + i] == id[i] by {}
    assert(s[11 + n] == '"');
    assert(s[12 + n] == if merged { ',' } else { '}' });
    assert(space_end(s, 0) == 0);
    assert(space_end(s, 1) == 1);
    lemma_plain_literal(s, 2, 8);
    assert(space_end(s, 9) == 9);
    assert forall|i: int| 11 <= i < 11 + n implies #[trigger] s[i] != '"' && s[i] != '\\' by {
        assert(s[11 + (i - 11)] == id[i - 11]);
    }
    lemma_plain_literal(s, 11, 11 + n);
    assert(value_end(s, 12 + n, 0) == Some(12 + n));
    assert(value_end(s, 10, 0) == Some(12 + n));
    let m = Member { from: 1, key: 1, key_end: 9, colon: 9, end: 12 + n };
    assert(member_at(s, 1) == Some(m));
    assert(s.subrange(1, 9) =~= reserved_key());
    assert(reserved_member(s, 1) == Some(m));
    assert(space_end(s, 10) == 10);
    assert(space_end(s, 12 + n) == 12 + n);
    assert(s.subrange(11, 11 + n) =~= id);
    if merged {
        assert(s.subrange(0, 1) + s.subrange(13 + n, s.len() as int) =~= data);
    } else {
        assert(s.subrange(0, 1) + s.subrange(12 + n, s.len() as int) =~= data);
    }
}

/// Tagging and taking apart are inverse: the tagged object of a plain
/// identifier text and an object payload splits into that text and the
/// payload without the white space around it. A payload with white space
/// alone between its braces is written without it, so it comes back only
/// where it is `{}`.
pub proof fn lemma_split_tagged(id: Seq<char>, data: Seq<char>)
    requires
        plain(id),
        is_object(trimmed(data)),
        blank(trimmed(data).subrange(1, trimmed(data).len() - 1)) ==> trimmed(data).len() == 2,
    ensures
        split(tagged(id, data)) == Ok::<Parts, WireError>(Parts { id, rest: trimmed(data) }),
{
    lemma_split_joined(id, trimmed(data));
}

/// The text without the white space around it.
pub fn trim<'a>(text: &'a str) -> (out: &'a str)
    ensures
        out@ == trimmed(text@),
{
    let chars = chars_of(text);
    let from = skip_space(&chars, 0);
    let mut to: usize = chars.len();
    while to > 0 && (chars[to - 1] == ' ' || chars[to - 1] == '\t' || chars[to - 1] == '\n'
        || chars[to - 1] == '\r')
        invariant
            to <= chars.len(),
            text_end(chars@, chars.len() as int) == text_end(chars@, to as int),
        decreases to,
    {
        to = to - 1;
    }
    if from <= to {
        text.substring_char(from, to)
    } else {
        let out = text.substring_char(0, 0);
        assert(out@ =~= Seq::<char>::empty());
        out
    }
}

/// Whether a payload text can be merged into a tagged object: without the
/// white space around it, it is `null` or opens with `{` and closes with `}`.
pub fn is_flat(data: &str) -> (yes: bool)
    ensures
        yes == flat(data@),
{
    let data = trim(data);
    let chars = chars_of(data);
    let len = chars.len();
    let object = len >= 2 && chars[0] == '{' && chars[len - 1] == '}';
    let null = len == 4 && chars[0] == 'n' && chars[1] == 'u' && chars[2] == 'l' && chars[3] == 'l';
    proof {
        if null {
            assert(data@ =~= seq!['n', 'u', 'l', 'l']);
        }
    }
    object || null
}

/// Writes the tagged object for an identifier text and a payload, where the
/// payload can be merged.
pub fn tag(id: &str, data: &str) -> (out: Option<String>)
    ensures
        flat(data@) ==> out is Some && out->0@ == tagged(id@, data@),
        !flat(data@) ==> out is None,
{
    let data = trim(data);
    let chars = chars_of(data);
    let len = chars.len();
    let object = len >= 2 && chars[0] == '{' && chars[len - 1] == '}';
    let null = len == 4 && chars[0] == 'n' && chars[1] == 'u' && chars[2] == 'l' && chars[3] == 'l';
    proof {
        if null {
            assert(data@ =~= seq!['n', 'u', 'l', 'l']);
        }
    }
    if !object && !null {
        return None;
    }
    let mut merged = false;
    if object {
        let mut i: usize = 1;
        while i < len - 1 && !merged
            invariant
                len == chars.len(),
                len >= 2,
                1 <= i <= len - 1,
                merged ==> !blank(chars@.subrange(1, len - 1)),
                !merged ==> forall|j: int| 1 <= j < i ==> is_space(#[trigger] chars@[j]),
            decreases (len - i) + if merged { 0int } else { 1int },
        {
            let c = chars[i];
            if c == ' ' || c == '\t' || c == '\n' || c == '\r' {
                i = i + 1;
            } else {
                merged = true;
                assert(chars@.subrange(1, len - 1)[i - 1] == c);
            }
        }
        proof {
            if !merged {
                assert forall|j: int| 0 <= j < len - 2 implies is_space(
                    #[trigger] chars@.subrange(1, len - 1)[j],
                ) by {
                    assert(is_space(chars@[j + 1]));
                }
            }
        }
    }
    proof {
        reveal_strlit("{\"@extra\":\"");
        reveal_strlit("\",");
        reveal_strlit("\"}");
        assert("{\"@extra\":\""@ =~= tag_head());
        assert("\","@ =~= seq!['"', ',']);
        assert("\"}"@ =~= seq!['"', '}']);
    }
    let head = String::from_str("{\"@extra\":\"").concat(id);
    if merged {
        Some(head.concat("\",").concat(data.substring_char(1, len)))
    } else {
        Some(head.concat("\"}"))
    }
}

} // verus!
