//! The line format spoken between a client and the relay.
//!
//! A client's first line is its name. Every later line has the shape
//! `recipient1,recipient2,...:message text`; the relay hands the text to each
//! recipient as `from {sender}: {text}` followed by a line feed.

use vstd::prelude::*;
use vstd::string::*;

verus! {

/// A peer's name, or any other piece of text, as the contracts see it.
pub type Text = Seq<char>;

/// The characters that `str::trim` removes: the code points with the Unicode
/// property `White_Space`.
pub open spec fn is_space(c: char) -> bool {
    let u: u32 = c as u32;
    ||| 0x09 <= u <= 0x0D
    ||| u == 0x20
    ||| u == 0x85
    ||| u == 0xA0
    ||| u == 0x1680
    ||| 0x2000 <= u <= 0x200A
    ||| u == 0x2028
    ||| u == 0x2029
    ||| u == 0x202F
    ||| u == 0x205F
    ||| u == 0x3000
}

/// How many characters of `s` come before the first `stop`; the whole length
/// where `s` holds no `stop`.
pub open spec fn span_before(s: Text, stop: char) -> nat
    decreases s.len(),
{
    if s.len() == 0 || s[0] == stop {
        0
    } else {
        1 + span_before(s.drop_first(), stop)
    }
}

/// `s` without its leading white space.
pub open spec fn trim_start(s: Text) -> Text
    decreases s.len(),
{
    if s.len() > 0 && is_space(s[0]) {
        trim_start(s.drop_first())
    } else {
        s
    }
}

/// `s` without its trailing white space.
pub open spec fn trim_end(s: Text) -> Text
    decreases s.len(),
{
    if s.len() > 0 && is_space(s.last()) {
        trim_end(s.drop_last())
    } else {
        s
    }
}

/// `s` without leading and trailing white space.
pub open spec fn trimmed(s: Text) -> Text {
    trim_end(trim_start(s))
}

/// The names in a recipient list: the pieces between commas, each trimmed.
/// A list without a comma is one name, the empty list included.
pub open spec fn recipients(list: Text) -> Seq<Text>
    decreases list.len(),
{
    let i: int = span_before(list, ',') as int;
    if i < list.len() {
        seq![trimmed(list.take(i))] + recipients(list.skip(i + 1))
    } else {
        seq![trimmed(list)]
    }
}

/// What a message line asks for: the recipients before the first colon and the
/// text after it, which is kept as it is. A line without a colon asks for
/// nothing.
pub open spec fn parsed(line: Text) -> Option<(Seq<Text>, Text)> {
    let i: int = span_before(line, ':') as int;
    if i < line.len() {
        Some((recipients(line.take(i)), line.skip(i + 1)))
    } else {
        None
    }
}

/// The line a recipient gets for `content` sent by `from`.
pub open spec fn delivery_line(from: Text, content: Text) -> Text {
    seq!['f', 'r', 'o', 'm', ' '] + from + seq![':', ' '] + content + seq!['\n']
}

/// The texts of a sequence of strings.
pub open spec fn texts(v: Seq<String>) -> Seq<Text> {
    Seq::new(v.len(), |i: int| v[i]@)
}

/// A parsed message line.
#[derive(Debug, PartialEq, Eq)]
pub struct Addressed {
    /// The recipients, in the order the line names them.
    pub to: Vec<String>,
    /// The message text.
    pub content: String,
}

impl Addressed {
    /// The recipients and the text, as `parsed` gives them.
    pub open spec fn view(&self) -> (Seq<Text>, Text) {
        (texts(self.to@), self.content@)
    }
}

proof fn lemma_span_before(s: Text, stop: char, i: int)
    requires
        0 <= i <= s.len(),
        forall|j: int| 0 <= j < i ==> s[j] != stop,
        i == s.len() || s[i] == stop,
    ensures
        span_before(s, stop) == i,
    decreases i,
{
    if i > 0 {
        let rest = s.drop_first();
        assert forall|j: int| 0 <= j < i - 1 implies rest[j] != stop by {
            assert(rest[j] == s[j + 1]);
        }
        lemma_span_before(rest, stop, i - 1);
    }
}

proof fn lemma_trim_start(s: Text, a: int)
    requires
        0 <= a <= s.len(),
        forall|j: int| 0 <= j < a ==> is_space(s[j]),
        a == s.len() || !is_space(s[a]),
    ensures
        trim_start(s) == s.skip(a),
    decreases a,
{
    if a > 0 {
        let rest = s.drop_first();
        assert forall|j: int| 0 <= j < a - 1 implies is_space(rest[j]) by {
            assert(rest[j] == s[j + 1]);
        }
        lemma_trim_start(rest, a - 1);
        assert(rest.skip(a - 1) =~= s.skip(a));
    } else {
        assert(s.skip(0) =~= s);
    }
}

proof fn lemma_trim_end(s: Text, b: int)
    requires
        0 <= b <= s.len(),
        forall|j: int| b <= j < s.len() ==> is_space(s[j]),
        b == 0 || !is_space(s[b - 1]),
    ensures
        trim_end(s) == s.take(b),
    decreases s.len() - b,
{
    if b < s.len() {
        let rest = s.drop_last();
        lemma_trim_end(rest, b);
        assert(rest.take(b) =~= s.take(b));
    } else {
        assert(s.take(b) =~= s);
    }
}

/// Whether `str::trim` would remove `c`.
pub fn is_space_char(c: char) -> (b: bool)
    ensures
        b == is_space(c),
{
    let u: u32 = c as u32;
    (0x09 <= u && u <= 0x0D) || u == 0x20 || u == 0x85 || u == 0xA0 || u == 0x1680 || (0x2000 <= u
        && u <= 0x200A) || u == 0x2028 || u == 0x2029 || u == 0x202F || u == 0x205F || u == 0x3000
}

/// The characters of `s`, for indexing in constant time.
fn chars_of(s: &str) -> (v: Vec<char>)
    ensures
        v@ == s@,
{
    let n = s.unicode_len();
    let mut v: Vec<char> = Vec::with_capacity(n);
    let mut it = s.chars();
    for c in iter: it
        invariant
            v@ == iter.seq().take(iter.index() as int),
    {
        v.push(c);
    }
    v
}

/// The first position in `lo..hi` that holds `stop`, or `hi`.
fn scan(v: &Vec<char>, lo: usize, hi: usize, stop: char) -> (k: usize)
    requires
        lo <= hi <= v.len(),
    ensures
        lo <= k <= hi,
        span_before(v@.subrange(lo as int, hi as int), stop) == k - lo,
{
    let mut k: usize = lo;
    while k < hi && v[k] != stop
        invariant
            lo <= k <= hi <= v.len(),
            forall|j: int| lo <= j < k ==> v@[j] != stop,
        decreases hi - k,
    {
        k = k + 1;
    }
    proof {
        lemma_span_before(v@.subrange(lo as int, hi as int), stop, k - lo);
    }
    k
}

/// The bounds of `lo..hi` once the white space at both ends is left out.
fn trim_bounds(v: &Vec<char>, lo: usize, hi: usize) -> (r: (usize, usize))
    requires
        lo <= hi <= v.len(),
    ensures
        lo <= r.0 <= r.1 <= hi,
        trimmed(v@.subrange(lo as int, hi as int)) == v@.subrange(r.0 as int, r.1 as int),
{
    let mut a: usize = lo;
    while a < hi && is_space_char(v[a])
        invariant
            lo <= a <= hi <= v.len(),
            forall|j: int| lo <= j < a ==> is_space(v@[j]),
        decreases hi - a,
    {
        a = a + 1;
    }
    let mut b: usize = hi;
    while b > a && is_space_char(v[b - 1])
        invariant
            a <= b <= hi <= v.len(),
            forall|j: int| b <= j < hi ==> is_space(v@[j]),
        decreases b - a,
    {
        b = b - 1;
    }
    proof {
        let piece = v@.subrange(lo as int, hi as int);
        lemma_trim_start(piece, a - lo);
        let tail = piece.skip(a - lo);
        assert(tail =~= v@.subrange(a as int, hi as int));
        lemma_trim_end(tail, b - a);
        assert(tail.take(b - a) =~= v@.subrange(a as int, b as int));
    }
    (a, b)
}

/// Parses a message line: the comma-separated recipients before the first
/// colon, each trimmed, and the text after it. A line without a colon gives
/// `None`.
pub fn parse_line(line: &str) -> (res: Option<Addressed>)
    ensures
        match parsed(line@) {
            Some(p) => res is Some && res->0@ == p,
            None => res is None,
        },
{
    let chars = chars_of(line);
    let n = chars.len();
    let colon = scan(&chars, 0, n, ':');
    assert(chars@.subrange(0, n as int) =~= line@);
    if colon == n {
        return None;
    }
    let ghost list = chars@.subrange(0, colon as int);
    assert(list =~= line@.take(colon as int));
    let mut to: Vec<String> = Vec::new();
    let mut lo: usize = 0;
    let mut done = false;
    while !done
        invariant
            lo <= colon < n == chars.len(),
            chars@ == line@,
            list == chars@.subrange(0, colon as int),
            !done ==> texts(to@) + recipients(chars@.subrange(lo as int, colon as int))
                == recipients(list),
            done ==> texts(to@) == recipients(list),
        decreases (colon - lo) + (if done { 0int } else { 1int }),
    {
        let k = scan(&chars, lo, colon, ',');
        let (a, b) = trim_bounds(&chars, lo, k);
        let name = String::from_str(line.substring_char(a, b));
        proof {
            let rest = chars@.subrange(lo as int, colon as int);
            assert(rest.take(k - lo) =~= chars@.subrange(lo as int, k as int));
            if k < colon {
                assert(rest.skip(k - lo + 1) =~= chars@.subrange(k + 1, colon as int));
            } else {
                assert(rest =~= chars@.subrange(lo as int, k as int));
            }
            assert(texts(to@.push(name)) =~= texts(to@).push(name@));
        }
        to.push(name);
        if k == colon {
            done = true;
        } else {
            lo = k + 1;
        }
    }
    let content = String::from_str(line.substring_char(colon + 1, n));
    assert(content@ =~= line@.skip(colon + 1));
    Some(Addressed { to, content })
}

/// Builds the line that a recipient gets for `content` sent by `from`.
pub fn format_delivery(from: &str, content: &str) -> (line: String)
    ensures
        line@ == delivery_line(from@, content@),
{
    let mut line = String::from_str("from ");
    line.append(from);
    line.append(": ");
    line.append(content);
    line.append("\n");
    proof {
        reveal_strlit("from ");
        reveal_strlit(": ");
        reveal_strlit("\n");
        assert("from "@ =~= seq!['f', 'r', 'o', 'm', ' ']);
        assert(": "@ =~= seq![':', ' ']);
        assert("\n"@ =~= seq!['\n']);
    }
    line
}

} // verus!
