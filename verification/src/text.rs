//! Plain-text recognizers over template source: action wrappers
//! (`{{- … -}}`), assignment right-hand sides, control-flow holes, and
//! YAML-document file-name keys.
//!
//! Text is handled as its sequence of `char`s; whitespace is Unicode
//! `White_Space`, as Rust's `trim` and `split_whitespace` use it.

use vstd::prelude::*;

use crate::domain::{EntryKey, StringPart};

verus! {

/// Whether `c` has the Unicode `White_Space` property.
pub open spec fn is_ws(c: char) -> bool {
    let u = c as u32;
    (0x9 <= u <= 0xd) || u == 0x20 || u == 0x85 || u == 0xa0 || u == 0x1680 || (0x2000 <= u
        <= 0x200a) || u == 0x2028 || u == 0x2029 || u == 0x202f || u == 0x205f || u == 0x3000
}

/// Whether `c` has the Unicode `White_Space` property.
pub fn is_whitespace(c: char) -> (ws: bool)
    ensures
        ws == is_ws(c),
{
    let u = c as u32;
    (0x9 <= u && u <= 0xd) || u == 0x20 || u == 0x85 || u == 0xa0 || u == 0x1680 || (0x2000 <= u
        && u <= 0x200a) || u == 0x2028 || u == 0x2029 || u == 0x202f || u == 0x205f || u == 0x3000
}

/// The number of leading whitespace characters.
pub open spec fn leading_ws(s: Seq<char>) -> int
    decreases s.len(),
{
    if s.len() > 0 && is_ws(s[0]) {
        1 + leading_ws(s.drop_first())
    } else {
        0
    }
}

/// The number of trailing whitespace characters.
pub open spec fn trailing_ws(s: Seq<char>) -> int
    decreases s.len(),
{
    if s.len() > 0 && is_ws(s.last()) {
        1 + trailing_ws(s.drop_last())
    } else {
        0
    }
}

/// `s` without leading whitespace.
pub open spec fn trim_start(s: Seq<char>) -> Seq<char> {
    s.skip(leading_ws(s))
}

/// `s` without trailing whitespace.
pub open spec fn trim_end(s: Seq<char>) -> Seq<char> {
    s.take(s.len() - trailing_ws(s))
}

/// `s` without leading or trailing whitespace.
pub open spec fn trim(s: Seq<char>) -> Seq<char> {
    trim_end(trim_start(s))
}

/// Whether `s` begins with `p`.
pub open spec fn starts_with(s: Seq<char>, p: Seq<char>) -> bool {
    p.len() <= s.len() && s.take(p.len() as int) == p
}

/// `p` occurs in `s` at position `i`.
pub open spec fn occurs_at(s: Seq<char>, p: Seq<char>, i: int) -> bool {
    0 <= i && i + p.len() <= s.len() && s.subrange(i, i + p.len()) == p
}

/// The first position where `p` occurs in `s`.
pub open spec fn find(s: Seq<char>, p: Seq<char>) -> Option<int> {
    if exists|i: int| #[trigger] occurs_at(s, p, i) && forall|j: int| 0 <= j < i ==> !#[trigger] occurs_at(s, p, j) {
        Some(choose|i: int| #[trigger] occurs_at(s, p, i) && forall|j: int| 0 <= j < i ==> !#[trigger] occurs_at(s, p, j))
    } else {
        None
    }
}

/// The last position of `c` in `s`.
pub open spec fn rfind_char(s: Seq<char>, c: char) -> Option<int> {
    if exists|i: int| 0 <= i < s.len() && s[i] == c && forall|j: int| i < j < s.len() ==> s[j] != c {
        Some(choose|i: int| 0 <= i < s.len() && s[i] == c && forall|j: int| i < j < s.len() ==> s[j] != c)
    } else {
        None
    }
}

/// `s` with one leading `c` removed, if present.
pub open spec fn strip_one_prefix(s: Seq<char>, c: char) -> Seq<char> {
    if s.len() > 0 && s[0] == c {
        s.drop_first()
    } else {
        s
    }
}

/// `s` with one trailing `c` removed, if present.
pub open spec fn strip_one_suffix(s: Seq<char>, c: char) -> Seq<char> {
    if s.len() > 0 && s.last() == c {
        s.drop_last()
    } else {
        s
    }
}

/// The number of leading `c` characters.
pub open spec fn leading_char(s: Seq<char>, c: char) -> int
    decreases s.len(),
{
    if s.len() > 0 && s[0] == c {
        1 + leading_char(s.drop_first(), c)
    } else {
        0
    }
}

/// The body of a template action written at the start of `line`: the
/// text between `{{` and the first `}}` after it, without one trim marker
/// on either side, trimmed. `None` when the line does not open an action
/// or the action is not closed.
pub open spec fn action_body(line: Seq<char>) -> Option<Seq<char>> {
    let t = trim_start(line);
    if !starts_with(t, seq!['{', '{']) {
        None
    } else {
        let after = t.skip(2);
        match find(after, seq!['}', '}']) {
            None => None,
            Some(close) => Some(
                trim(strip_one_suffix(strip_one_prefix(after.take(close), '-'), '-')),
            ),
        }
    }
}

/// Whether an assignment declares (`:=`) or reassigns (`=`) its variable.
#[derive(Clone, Copy, Debug, PartialEq, Eq, Structural)]
pub enum AssignmentKind {
    Declaration,
    Assignment,
}

/// The operator text of an assignment kind.
pub open spec fn operator_of(kind: AssignmentKind) -> Seq<char> {
    match kind {
        AssignmentKind::Declaration => seq![':', '='],
        AssignmentKind::Assignment => seq!['='],
    }
}

/// The right-hand side of an assignment `text` (possibly wrapped in an
/// action): the trimmed text after the first operator.
pub open spec fn rhs_of(text: Seq<char>, kind: AssignmentKind) -> Option<Seq<char>> {
    let body = if starts_with(trim_start(text), seq!['{', '{']) {
        match action_body(text) {
            Some(b) => Some(trim(b)),
            None => None,
        }
    } else {
        Some(trim(text))
    };
    match body {
        None => None,
        Some(b) => match find(b, operator_of(kind)) {
            None => None,
            Some(i) => Some(trim(b.skip(i + operator_of(kind).len()))),
        },
    }
}

/// The first whitespace-separated word of `s` (empty when there is none).
pub open spec fn first_word(s: Seq<char>) -> Seq<char> {
    let rest = trim_start(s);
    rest.take(word_len(rest))
}

/// The number of leading non-whitespace characters.
pub open spec fn word_len(s: Seq<char>) -> int
    decreases s.len(),
{
    if s.len() > 0 && !is_ws(s[0]) {
        1 + word_len(s.drop_first())
    } else {
        0
    }
}

/// A word without the action's closing delimiter: a trailing `}}` taken
/// off, and with it a `-` trim marker just before it.
pub open spec fn without_closing(w: Seq<char>) -> Seq<char> {
    if w.len() >= 2 && w[w.len() - 2] == '}' && w[w.len() - 1] == '}' {
        let v = w.take(w.len() - 2);
        if v.len() >= 1 && v[v.len() - 1] == '-' {
            v.take(v.len() - 1)
        } else {
            v
        }
    } else {
        w
    }
}

/// The keywords that open, continue, or close a control-flow action.
pub open spec fn is_control_keyword(w: Seq<char>) -> bool {
    ||| w == seq!['i', 'f']
    ||| w == seq!['e', 'l', 's', 'e']
    ||| w == seq!['e', 'n', 'd']
    ||| w == seq!['r', 'a', 'n', 'g', 'e']
    ||| w == seq!['w', 'i', 't', 'h']
    ||| w == seq!['d', 'e', 'f', 'i', 'n', 'e']
    ||| w == seq!['b', 'l', 'o', 'c', 'k']
}

/// The text whose first word decides whether a hole is a control action:
/// the trimmed hole, past an opening `{{` and its trim markers.
pub open spec fn control_probe(text: Seq<char>) -> Seq<char> {
    let inner = trim(text);
    if starts_with(inner, seq!['{', '{']) {
        let rest = inner.skip(2);
        trim_start(rest.skip(leading_char(rest, '-')))
    } else {
        inner
    }
}

/// ASCII lower case of one character.
pub open spec fn ascii_lower(c: char) -> char {
    match c {
        'A' => 'a',
        'B' => 'b',
        'C' => 'c',
        'D' => 'd',
        'E' => 'e',
        'F' => 'f',
        'G' => 'g',
        'H' => 'h',
        'I' => 'i',
        'J' => 'j',
        'K' => 'k',
        'L' => 'l',
        'M' => 'm',
        'N' => 'n',
        'O' => 'o',
        'P' => 'p',
        'Q' => 'q',
        'R' => 'r',
        'S' => 's',
        'T' => 't',
        'U' => 'u',
        'V' => 'v',
        'W' => 'w',
        'X' => 'x',
        'Y' => 'y',
        'Z' => 'z',
        _ => c,
    }
}

/// Equality ignoring ASCII case.
pub open spec fn eq_ignore_ascii_case(a: Seq<char>, b: Seq<char>) -> bool {
    a.len() == b.len() && forall|i: int| 0 <= i < a.len() ==> ascii_lower(#[trigger] a[i]) == ascii_lower(b[i])
}

/// Whether a key text names a YAML document: its text, trailing whitespace
/// removed, has an extension after its last `.` that is `yaml` or `yml` in
/// any ASCII case.
pub open spec fn names_yaml_document(text: Seq<char>) -> bool {
    let t = trim_end(text);
    match rfind_char(t, '.') {
        None => false,
        Some(dot) => {
            let ext = t.skip(dot + 1);
            eq_ignore_ascii_case(ext, seq!['y', 'a', 'm', 'l']) || eq_ignore_ascii_case(ext, seq!['y', 'm', 'l'])
        },
    }
}

// ---------------------------------------------------------------------
// Character sequences and strings
// ---------------------------------------------------------------------

/// Append one character to a string.
#[verifier::external_body]
fn push_char(s: &mut String, c: char)
    ensures
        final(s)@ == old(s)@.push(c),
{
    s.push(c);
}

/// The characters of `s`.
pub fn chars_of(s: &str) -> (chars: Vec<char>)
    ensures
        chars@ == s@,
{
    let mut chars: Vec<char> = Vec::new();
    for c in it: s.chars()
        invariant
            it.seq() == s@,
            chars@ == it.seq().take(it.index() as int),
    {
        chars.push(c);
        proof {
            assert(it.seq().take(it.index() + 1) =~= it.seq().take(it.index() as int).push(c));
        }
    }
    assert(s@.take(s@.len() as int) =~= s@);
    chars
}

/// The string of characters `chars[from..to]`.
pub fn string_of(chars: &Vec<char>, from: usize, to: usize) -> (s: String)
    requires
        from <= to <= chars@.len(),
    ensures
        s@ == chars@.subrange(from as int, to as int),
{
    let mut s = String::new();
    let mut i: usize = from;
    while i < to
        invariant
            from <= i <= to <= chars@.len(),
            s@ == chars@.subrange(from as int, i as int),
        decreases to - i,
    {
        push_char(&mut s, chars[i]);
        proof {
            assert(chars@.subrange(from as int, i + 1) =~= chars@.subrange(from as int, i as int).push(chars@[i as int]));
        }
        i += 1;
    }
    s
}

/// The first position at or after `from` in `chars[from..to]` that is not
/// whitespace (`to` when there is none).
fn skip_leading_ws(chars: &Vec<char>, from: usize, to: usize) -> (p: usize)
    requires
        from <= to <= chars@.len(),
    ensures
        from <= p <= to,
        chars@.subrange(p as int, to as int) == trim_start(chars@.subrange(from as int, to as int)),
{
    let ghost s = chars@.subrange(from as int, to as int);
    let mut start = from;
    while start < to && is_whitespace(chars[start])
        invariant
            from <= start <= to <= chars@.len(),
            s == chars@.subrange(from as int, to as int),
            leading_ws(s) == (start - from) + leading_ws(chars@.subrange(start as int, to as int)),
        decreases to - start,
    {
        proof {
            let t = chars@.subrange(start as int, to as int);
            assert(t.drop_first() =~= chars@.subrange(start + 1, to as int));
        }
        start += 1;
    }
    proof {
        let t = chars@.subrange(start as int, to as int);
        if start < to {
            assert(t[0] == chars@[start as int]);
        }
        assert(leading_ws(t) == 0);
        assert(trim_start(s) =~= t);
    }
    start
}

/// The end of `chars[from..to]` without trailing whitespace.
fn skip_trailing_ws(chars: &Vec<char>, from: usize, to: usize) -> (p: usize)
    requires
        from <= to <= chars@.len(),
    ensures
        from <= p <= to,
        chars@.subrange(from as int, p as int) == trim_end(chars@.subrange(from as int, to as int)),
{
    let ghost s = chars@.subrange(from as int, to as int);
    let mut end = to;
    while end > from && is_whitespace(chars[end - 1])
        invariant
            from <= end <= to <= chars@.len(),
            s == chars@.subrange(from as int, to as int),
            trailing_ws(s) == (to - end) + trailing_ws(chars@.subrange(from as int, end as int)),
        decreases end - from,
    {
        proof {
            let t = chars@.subrange(from as int, end as int);
            assert(t.drop_last() =~= chars@.subrange(from as int, end - 1));
        }
        end -= 1;
    }
    proof {
        let t = chars@.subrange(from as int, end as int);
        if end > from {
            assert(t.last() == chars@[end - 1]);
        }
        assert(trailing_ws(t) == 0);
        assert(trim_end(s) =~= t);
    }
    end
}

/// The range `[start, end)` of `chars[from..to]` without surrounding
/// whitespace.
fn trimmed_range(chars: &Vec<char>, from: usize, to: usize) -> (range: (usize, usize))
    requires
        from <= to <= chars@.len(),
    ensures
        from <= range.0 <= range.1 <= to,
        chars@.subrange(range.0 as int, range.1 as int) == trim(chars@.subrange(from as int, to as int)),
{
    let start = skip_leading_ws(chars, from, to);
    let end = skip_trailing_ws(chars, start, to);
    (start, end)
}

/// Whether `chars[at..]` begins with `{{`.
fn opens_action(chars: &Vec<char>, at: usize, to: usize) -> (opens: bool)
    requires
        at <= to <= chars@.len(),
    ensures
        opens == starts_with(chars@.subrange(at as int, to as int), seq!['{', '{']),
{
    let ghost t = chars@.subrange(at as int, to as int);
    let opens = 2 <= to - at && chars[at] == '{' && chars[at + 1] == '{';
    proof {
        if opens {
            assert(t.take(2) =~= seq!['{', '{']);
        } else if starts_with(t, seq!['{', '{']) {
            assert(t.take(2)[0] == t[0] && t.take(2)[1] == t[1]);
        }
    }
    opens
}

/// The first position `i` where `pattern` occurs inside
/// `chars[from..to]`, relative to `from`.
fn find_in(chars: &Vec<char>, from: usize, to: usize, pattern: &Vec<char>) -> (found: Option<usize>)
    requires
        from <= to <= chars@.len(),
    ensures
        match found {
            Some(i) => find(chars@.subrange(from as int, to as int), pattern@) == Some(i as int)
                && i + pattern@.len() <= to - from,
            None => find(chars@.subrange(from as int, to as int), pattern@) is None,
        },
{
    let ghost s = chars@.subrange(from as int, to as int);
    let n = to - from;
    let m = pattern.len();
    if m > n {
        proof {
            assert forall|i: int| !#[trigger] occurs_at(s, pattern@, i) by {}
        }
        return None;
    }
    let mut i: usize = 0;
    while i <= n - m
        invariant
            from <= to <= chars@.len(),
            n == to - from,
            m == pattern@.len(),
            m <= n,
            s == chars@.subrange(from as int, to as int),
            i <= n - m + 1,
            forall|j: int| 0 <= j < i ==> !#[trigger] occurs_at(s, pattern@, j),
        decreases n - i,
    {
        let mut k: usize = 0;
        while k < m && chars[from + i + k] == pattern[k]
            invariant
                from <= to <= chars@.len(),
                k <= m,
                i + m <= n,
                n == to - from,
                m == pattern@.len(),
                s == chars@.subrange(from as int, to as int),
                forall|q: int| 0 <= q < k ==> s[i + q] == pattern@[q],
            decreases m - k,
        {
            k += 1;
        }
        if k == m {
            proof {
                assert(s.subrange(i as int, i + m) =~= pattern@);
                assert(occurs_at(s, pattern@, i as int));
                let c = choose|c: int| #[trigger] occurs_at(s, pattern@, c) && forall|j: int| 0 <= j < c ==> !#[trigger] occurs_at(s, pattern@, j);
                if c < i {
                    assert(!occurs_at(s, pattern@, c));
                }
                if i < c {
                    assert(!occurs_at(s, pattern@, i as int));
                }
            }
            return Some(i);
        }
        proof {
            assert(s[i + k] == chars@[from + i + k]);
            assert(s[i + k] != pattern@[k as int]);
            if occurs_at(s, pattern@, i as int) {
                assert(s.subrange(i as int, i + m)[k as int] == s[i + k]);
            }
        }
        i += 1;
    }
    proof {
        assert forall|j: int| !#[trigger] occurs_at(s, pattern@, j) by {
            if j >= i {
                assert(j + m > n);
            }
        }
    }
    None
}

/// The body of a template action written at the start of `line`, without
/// trim markers and surrounding whitespace.
pub fn strip_template_action_wrapping(line: &str) -> (body: Option<String>)
    ensures
        match body {
            Some(b) => action_body(line@) == Some(b@),
            None => action_body(line@) is None,
        },
{
    let chars = chars_of(line);
    match action_body_range(&chars) {
        Some((start, end)) => Some(string_of(&chars, start, end)),
        None => None,
    }
}

/// `chars[from..to]` without one leading and one trailing `-`.
fn strip_markers(chars: &Vec<char>, from: usize, to: usize) -> (range: (usize, usize))
    requires
        from <= to <= chars@.len(),
    ensures
        from <= range.0 <= range.1 <= to,
        chars@.subrange(range.0 as int, range.1 as int) == strip_one_suffix(
            strip_one_prefix(chars@.subrange(from as int, to as int), '-'),
            '-',
        ),
{
    let ghost raw = chars@.subrange(from as int, to as int);
    let mut start = from;
    let mut end = to;
    if start < end && chars[start] == '-' {
        proof {
            assert(raw[0] == chars@[start as int]);
            assert(raw.drop_first() =~= chars@.subrange(start + 1, end as int));
        }
        start += 1;
    } else {
        proof {
            if raw.len() > 0 {
                assert(raw[0] == chars@[start as int]);
            }
        }
    }
    let ghost stripped = chars@.subrange(start as int, end as int);
    assert(stripped == strip_one_prefix(raw, '-'));
    if start < end && chars[end - 1] == '-' {
        proof {
            assert(stripped.last() == chars@[end - 1]);
            assert(stripped.drop_last() =~= chars@.subrange(start as int, end - 1));
        }
        end -= 1;
    } else {
        proof {
            if stripped.len() > 0 {
                assert(stripped.last() == chars@[end - 1]);
            }
        }
    }
    (start, end)
}

/// The character range of [`action_body`] within `chars`.
fn action_body_range(chars: &Vec<char>) -> (range: Option<(usize, usize)>)
    ensures
        match range {
            Some(r) => r.0 <= r.1 <= chars@.len() && action_body(chars@) == Some(chars@.subrange(r.0 as int, r.1 as int)),
            None => action_body(chars@) is None,
        },
{
    let n = chars.len();
    let lead = skip_leading_ws(chars, 0, n);
    proof {
        assert(chars@.subrange(0, n as int) =~= chars@);
    }
    let ghost t = trim_start(chars@);
    if !opens_action(chars, lead, n) {
        return None;
    }
    let open_end = lead + 2;
    let mut close: Vec<char> = Vec::new();
    close.push('}');
    close.push('}');
    proof {
        assert(close@ =~= seq!['}', '}']);
        assert(t.skip(2) =~= chars@.subrange(open_end as int, n as int));
    }
    match find_in(chars, open_end, n, &close) {
        None => None,
        Some(c) => {
            proof {
                assert(t.skip(2).take(c as int) =~= chars@.subrange(open_end as int, open_end + c));
            }
            let (body_start, body_end) = strip_markers(chars, open_end, open_end + c);
            let (s, e) = trimmed_range(chars, body_start, body_end);
            Some((s, e))
        },
    }
}

/// The right-hand side of an assignment action or expression: the
/// trimmed text after the first `:=` (declaration) or `=` (assignment).
pub fn assignment_rhs_text(text: &str, kind: AssignmentKind) -> (rhs: Option<String>)
    ensures
        match rhs {
            Some(r) => rhs_of(text@, kind) == Some(r@),
            None => rhs_of(text@, kind) is None,
        },
{
    let chars = chars_of(text);
    let n = chars.len();
    let lead = skip_leading_ws(&chars, 0, n);
    proof {
        assert(chars@.subrange(0, n as int) =~= chars@);
    }
    let wrapped = opens_action(&chars, lead, n);
    let (body_start, body_end) = if wrapped {
        match action_body_range(&chars) {
            None => {
                return None;
            },
            Some(r) => trimmed_range(&chars, r.0, r.1),
        }
    } else {
        trimmed_range(&chars, 0, n)
    };
    let ghost body = chars@.subrange(body_start as int, body_end as int);
    let mut operator: Vec<char> = Vec::new();
    match kind {
        AssignmentKind::Declaration => {
            operator.push(':');
            operator.push('=');
        },
        AssignmentKind::Assignment => {
            operator.push('=');
        },
    }
    proof {
        assert(operator@ =~= operator_of(kind));
    }
    match find_in(&chars, body_start, body_end, &operator) {
        None => None,
        Some(i) => {
            let from = body_start + i + operator.len();
            let (s, e) = trimmed_range(&chars, from, body_end);
            proof {
                assert(body.skip(i + operator@.len()) =~= chars@.subrange(from as int, body_end as int));
            }
            Some(string_of(&chars, s, e))
        },
    }
}

/// The number of leading `c` characters of `chars[from..to]`, added to
/// `from`.
fn skip_char(chars: &Vec<char>, from: usize, to: usize, c: char) -> (p: usize)
    requires
        from <= to <= chars@.len(),
    ensures
        from <= p <= to,
        chars@.subrange(p as int, to as int) == chars@.subrange(from as int, to as int).skip(
            leading_char(chars@.subrange(from as int, to as int), c),
        ),
{
    let ghost rest = chars@.subrange(from as int, to as int);
    let mut start = from;
    while start < to && chars[start] == c
        invariant
            from <= start <= to <= chars@.len(),
            rest == chars@.subrange(from as int, to as int),
            leading_char(rest, c) == (start - from) + leading_char(chars@.subrange(start as int, to as int), c),
        decreases to - start,
    {
        proof {
            assert(chars@.subrange(start as int, to as int).drop_first() =~= chars@.subrange(start + 1, to as int));
        }
        start += 1;
    }
    proof {
        let t = chars@.subrange(start as int, to as int);
        if start < to {
            assert(t[0] == chars@[start as int]);
        }
        assert(leading_char(t, c) == 0);
        assert(rest.skip(leading_char(rest, c)) =~= t);
    }
    start
}

/// The end of the leading non-whitespace run of `chars[from..to]`.
fn word_end(chars: &Vec<char>, from: usize, to: usize) -> (p: usize)
    requires
        from <= to <= chars@.len(),
    ensures
        from <= p <= to,
        chars@.subrange(from as int, p as int) == chars@.subrange(from as int, to as int).take(
            word_len(chars@.subrange(from as int, to as int)),
        ),
{
    let mut end = from;
    while end < to && !is_whitespace(chars[end])
        invariant
            from <= end <= to <= chars@.len(),
            word_len(chars@.subrange(from as int, to as int)) == (end - from) + word_len(
                chars@.subrange(end as int, to as int),
            ),
        decreases to - end,
    {
        proof {
            assert(chars@.subrange(end as int, to as int).drop_first() =~= chars@.subrange(end + 1, to as int));
        }
        end += 1;
    }
    proof {
        let t = chars@.subrange(end as int, to as int);
        if end < to {
            assert(t[0] == chars@[end as int]);
        }
        assert(word_len(t) == 0);
        let u = chars@.subrange(from as int, to as int);
        assert(u.take(word_len(u)) =~= chars@.subrange(from as int, end as int));
    }
    end
}

/// Whether an action hole is a control-flow fragment (`{{ if … }}`,
/// `{{ else }}`, `{{ end }}`, …) rather than an output expression.
pub fn hole_is_control_fragment(text: &str) -> (control: bool)
    ensures
        control == is_control_keyword(without_closing(first_word(control_probe(text@)))),
{
    let chars = chars_of(text);
    let n = chars.len();
    let (s, e) = trimmed_range(&chars, 0, n);
    proof {
        assert(chars@.subrange(0, n as int) =~= chars@);
    }
    let ghost inner = chars@.subrange(s as int, e as int);
    let start = if opens_action(&chars, s, e) {
        proof {
            assert(inner.skip(2) =~= chars@.subrange(s + 2, e as int));
        }
        let after = skip_char(&chars, s + 2, e, '-');
        let t = skip_leading_ws(&chars, after, e);
        proof {
            lemma_trim_start_idempotent(chars@.subrange(after as int, e as int));
            assert(control_probe(text@) == chars@.subrange(t as int, e as int));
        }
        t
    } else {
        skip_leading_ws(&chars, s, e)
    };
    assert(trim_start(control_probe(text@)) == chars@.subrange(start as int, e as int));
    let end = word_end(&chars, start, e);
    let ghost w = chars@.subrange(start as int, end as int);
    let mut cut = end;
    if end - start >= 2 && chars[end - 2] == '}' && chars[end - 1] == '}' {
        cut = end - 2;
        if cut - start >= 1 && chars[cut - 1] == '-' {
            cut = cut - 1;
        }
    }
    let word = chars_between(&chars, start, cut);
    proof {
        assert(w.len() == end - start);
        assert(word@ =~= without_closing(w));
    }
    keyword_matches(&word)
}

/// Trimming the start of a text twice trims it once.
proof fn lemma_trim_start_idempotent(s: Seq<char>)
    ensures
        0 <= leading_ws(s) <= s.len(),
        leading_ws(trim_start(s)) == 0,
        trim_start(trim_start(s)) == trim_start(s),
    decreases s.len(),
{
    if s.len() > 0 && is_ws(s[0]) {
        let d = s.drop_first();
        lemma_trim_start_idempotent(d);
        assert(s.skip(leading_ws(s)) =~= d.skip(leading_ws(d)));
    } else {
        assert(s.skip(0) =~= s);
    }
    assert(trim_start(s).skip(0) =~= trim_start(s));
}

/// `chars[from..to]` as its own vector.
fn chars_between(chars: &Vec<char>, from: usize, to: usize) -> (part: Vec<char>)
    requires
        from <= to <= chars@.len(),
    ensures
        part@ == chars@.subrange(from as int, to as int),
{
    let mut part: Vec<char> = Vec::new();
    let mut i = from;
    while i < to
        invariant
            from <= i <= to <= chars@.len(),
            part@ == chars@.subrange(from as int, i as int),
        decreases to - i,
    {
        part.push(chars[i]);
        proof {
            assert(chars@.subrange(from as int, i + 1) =~= chars@.subrange(from as int, i as int).push(chars@[i as int]));
        }
        i += 1;
    }
    part
}

/// Whether `word` equals the characters of `keyword`.
fn word_is(word: &Vec<char>, keyword: &Vec<char>) -> (same: bool)
    ensures
        same == (word@ == keyword@),
{
    if word.len() != keyword.len() {
        return false;
    }
    let mut i: usize = 0;
    while i < word.len()
        invariant
            i <= word@.len(),
            word@.len() == keyword@.len(),
            forall|j: int| 0 <= j < i ==> word@[j] == keyword@[j],
        decreases word@.len() - i,
    {
        if word[i] != keyword[i] {
            return false;
        }
        i += 1;
    }
    assert(word@ =~= keyword@);
    true
}

/// Whether `word` is a control-flow keyword.
fn keyword_matches(word: &Vec<char>) -> (control: bool)
    ensures
        control == is_control_keyword(word@),
{
    let keywords: Vec<Vec<char>> = vec![
        vec!['i', 'f'],
        vec!['e', 'l', 's', 'e'],
        vec!['e', 'n', 'd'],
        vec!['r', 'a', 'n', 'g', 'e'],
        vec!['w', 'i', 't', 'h'],
        vec!['d', 'e', 'f', 'i', 'n', 'e'],
        vec!['b', 'l', 'o', 'c', 'k'],
    ];
    let mut i: usize = 0;
    while i < keywords.len()
        invariant
            i <= keywords@.len(),
            keywords@.len() == 7,
            keywords@[0]@ == seq!['i', 'f'],
            keywords@[1]@ == seq!['e', 'l', 's', 'e'],
            keywords@[2]@ == seq!['e', 'n', 'd'],
            keywords@[3]@ == seq!['r', 'a', 'n', 'g', 'e'],
            keywords@[4]@ == seq!['w', 'i', 't', 'h'],
            keywords@[5]@ == seq!['d', 'e', 'f', 'i', 'n', 'e'],
            keywords@[6]@ == seq!['b', 'l', 'o', 'c', 'k'],
            forall|j: int| 0 <= j < i ==> word@ != (#[trigger] keywords@[j])@,
        decreases keywords@.len() - i,
    {
        if word_is(word, &keywords[i]) {
            return true;
        }
        i += 1;
    }
    false
}

/// Whether a mapping key names a YAML document: a literal key by its own
/// text; a templated key only when its last part is literal text all of
/// whose alternatives do.
pub open spec fn key_names_document(key: EntryKey) -> bool {
    match key {
        EntryKey::Literal(text) => names_yaml_document(text@),
        EntryKey::Dynamic(s) => s.parts@.len() > 0 && match s.parts@.last() {
            StringPart::Text(alternatives) => alternatives@.len() > 0 && forall|i: int|
                0 <= i < alternatives@.len() ==> names_yaml_document(#[trigger] alternatives@[i]@),
            _ => false,
        },
    }
}

/// A templated key's rendered prefix cannot take the extension away: two
/// templated keys with the same last part agree on naming a YAML
/// document.
pub proof fn lemma_templated_key_depends_on_tail(a: crate::domain::AbstractString, b: crate::domain::AbstractString)
    requires
        a.parts@.len() > 0,
        b.parts@.len() > 0,
        a.parts@.last() == b.parts@.last(),
    ensures
        key_names_document(EntryKey::Dynamic(a)) == key_names_document(EntryKey::Dynamic(b)),
{
}

/// Whether a mapping key names a YAML document (`values.yaml`,
/// `{{ $name }}.yml`): a literal key by its own text; a templated key only
/// when its last part is literal text all of whose alternatives do.
pub fn key_names_yaml_document(key: &EntryKey) -> (names: bool)
    ensures
        names == key_names_document(*key),
{
    match key {
        EntryKey::Literal(text) => text_names_yaml_document(text),
        EntryKey::Dynamic(s) => {
            let n = s.parts.len();
            if n == 0 {
                return false;
            }
            match &s.parts[n - 1] {
                StringPart::Text(alternatives) => all_name_yaml_documents(alternatives),
                _ => false,
            }
        },
    }
}

/// Whether there are alternatives and every one names a YAML document.
fn all_name_yaml_documents(alternatives: &Vec<String>) -> (all: bool)
    ensures
        all == (alternatives@.len() > 0 && forall|i: int|
            0 <= i < alternatives@.len() ==> names_yaml_document(#[trigger] alternatives@[i]@)),
{
    if alternatives.len() == 0 {
        return false;
    }
    let mut i: usize = 0;
    while i < alternatives.len()
        invariant
            i <= alternatives@.len(),
            forall|j: int| 0 <= j < i ==> names_yaml_document(#[trigger] alternatives@[j]@),
        decreases alternatives@.len() - i,
    {
        if !text_names_yaml_document(&alternatives[i]) {
            assert(!names_yaml_document(alternatives@[i as int]@));
            return false;
        }
        i += 1;
    }
    true
}

/// Whether `text` names a YAML document.
fn text_names_yaml_document(text: &String) -> (names: bool)
    ensures
        names == names_yaml_document(text@),
{
    let chars = chars_of(text.as_str());
    let n = chars.len();
    let end = skip_trailing_ws(&chars, 0, n);
    proof {
        assert(chars@.subrange(0, n as int) =~= chars@);
    }
    let ghost t = chars@.subrange(0, end as int);
    let mut dot = end;
    while dot > 0 && chars[dot - 1] != '.'
        invariant
            dot <= end <= n,
            n == chars@.len(),
            t == chars@.subrange(0, end as int),
            forall|j: int| dot <= j < end ==> t[j] != '.',
        decreases dot,
    {
        dot -= 1;
    }
    if dot == 0 {
        proof {
            if exists|i: int| 0 <= i < t.len() && t[i] == '.' && forall|j: int| i < j < t.len() ==> t[j] != '.' {
                let i = choose|i: int| 0 <= i < t.len() && t[i] == '.' && forall|j: int| i < j < t.len() ==> t[j] != '.';
                assert(t[i] != '.');
            }
        }
        return false;
    }
    let d = dot - 1;
    proof {
        assert(t[d as int] == '.');
        let c = choose|i: int| 0 <= i < t.len() && t[i] == '.' && forall|j: int| i < j < t.len() ==> t[j] != '.';
        if c < d {
            assert(t[d as int] != '.');
        }
        if d < c {
            assert(t[c] != '.');
        }
        assert(rfind_char(t, '.') == Some(d as int));
        assert(t.skip(d + 1) =~= chars@.subrange(dot as int, end as int));
    }
    let yaml = vec!['y', 'a', 'm', 'l'];
    let yml = vec!['y', 'm', 'l'];
    proof {
        assert(yaml@ =~= seq!['y', 'a', 'm', 'l']);
        assert(yml@ =~= seq!['y', 'm', 'l']);
    }
    ext_matches(&chars, dot, end, &yaml) || ext_matches(&chars, dot, end, &yml)
}

/// ASCII lower case of one character.
fn to_ascii_lower(c: char) -> (lower: char)
    ensures
        lower == ascii_lower(c),
{
    match c {
        'A' => 'a',
        'B' => 'b',
        'C' => 'c',
        'D' => 'd',
        'E' => 'e',
        'F' => 'f',
        'G' => 'g',
        'H' => 'h',
        'I' => 'i',
        'J' => 'j',
        'K' => 'k',
        'L' => 'l',
        'M' => 'm',
        'N' => 'n',
        'O' => 'o',
        'P' => 'p',
        'Q' => 'q',
        'R' => 'r',
        'S' => 's',
        'T' => 't',
        'U' => 'u',
        'V' => 'v',
        'W' => 'w',
        'X' => 'x',
        'Y' => 'y',
        'Z' => 'z',
        _ => c,
    }
}

/// Whether `chars[from..to]` equals `ext` ignoring ASCII case.
fn ext_matches(chars: &Vec<char>, from: usize, to: usize, ext: &Vec<char>) -> (same: bool)
    requires
        from <= to <= chars@.len(),
    ensures
        same == eq_ignore_ascii_case(chars@.subrange(from as int, to as int), ext@),
{
    let ghost s = chars@.subrange(from as int, to as int);
    if to - from != ext.len() {
        return false;
    }
    let mut i: usize = 0;
    while i < ext.len()
        invariant
            from <= to <= chars@.len(),
            i <= ext@.len(),
            to - from == ext@.len(),
            s == chars@.subrange(from as int, to as int),
            forall|j: int| 0 <= j < i ==> ascii_lower(#[trigger] s[j]) == ascii_lower(ext@[j]),
        decreases ext@.len() - i,
    {
        if to_ascii_lower(chars[from + i]) != to_ascii_lower(ext[i]) {
            proof {
                assert(s[i as int] == chars@[from + i]);
            }
            return false;
        }
        i += 1;
    }
    true
}

} // verus!
