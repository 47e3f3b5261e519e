//! The interchange format: file names, and the frame of a file, which is a
//! front matter between two marker lines and then the body.

use vstd::prelude::*;
use crate::text::{chars_of, string_of};

verus! {

/// What `str::to_lowercase` makes of a string: its lowercase form by the
/// Unicode rules, under which one character may become several.
pub uninterp spec fn lowercase_of(s: Seq<char>) -> Seq<char>;

/// `str::to_lowercase`: the lowercase form of `s`. The result depends on
/// `s` alone.
#[verifier::external_body]
fn to_lowercase(s: &str) -> (lower: String)
    ensures
        lower@ == lowercase_of(s@),
{
    s.to_lowercase()
}

/// Whether `c` is an ASCII letter or digit.
pub open spec fn is_ascii_alphanumeric(c: char) -> bool {
    ||| 'a' <= c <= 'z'
    ||| 'A' <= c <= 'Z'
    ||| '0' <= c <= '9'
}

/// A character as it stands in a slug: itself if it is an ASCII letter or
/// digit, and a hyphen if not.
pub open spec fn slug_char(c: char) -> char {
    if is_ascii_alphanumeric(c) {
        c
    } else {
        '-'
    }
}

/// `s` with each run of hyphens made one hyphen. `after_hyphen` says that a
/// hyphen stands before `s`, so that hyphens at the start of `s` are dropped.
pub open spec fn collapsed(s: Seq<char>, after_hyphen: bool) -> Seq<char>
    decreases s.len(),
{
    if s.len() == 0 {
        s
    } else if s[0] == '-' {
        if after_hyphen {
            collapsed(s.drop_first(), true)
        } else {
            seq!['-'] + collapsed(s.drop_first(), true)
        }
    } else {
        seq![s[0]] + collapsed(s.drop_first(), false)
    }
}

/// `s` without the hyphens at its end.
pub open spec fn without_trailing_hyphens(s: Seq<char>) -> Seq<char>
    decreases s.len(),
{
    if s.len() > 0 && s.last() == '-' {
        without_trailing_hyphens(s.drop_last())
    } else {
        s
    }
}

/// The slug of a string that is already in lowercase: every character that
/// is not an ASCII letter or digit becomes a hyphen, runs of hyphens become
/// one, and hyphens at either end are dropped.
pub open spec fn slug(lower: Seq<char>) -> Seq<char> {
    without_trailing_hyphens(collapsed(lower.map_values(|c: char| slug_char(c)), true))
}

/// The slug of a string that is already in lowercase.
pub fn slug_of_lowercase(lower: &str) -> (out: String)
    ensures
        out@ == slug(lower@),
{
    let chars = chars_of(lower);
    let ghost mapped = lower@.map_values(|c: char| slug_char(c));
    let mut out: Vec<char> = Vec::new();
    let mut after_hyphen = true;
    let mut i: usize = 0;
    assert(mapped.skip(0) =~= mapped);
    while i < chars.len()
        invariant
            i <= chars.len(),
            chars@ == lower@,
            mapped == lower@.map_values(|c: char| slug_char(c)),
            collapsed(mapped, true) == out@ + collapsed(mapped.skip(i as int), after_hyphen),
        decreases chars.len() - i,
    {
        let c: char = chars[i];
        let keep = (c >= 'a' && c <= 'z') || (c >= 'A' && c <= 'Z') || (c >= '0' && c <= '9');
        proof {
            let rest = mapped.skip(i as int);
            assert(rest[0] == slug_char(c));
            assert(rest.drop_first() =~= mapped.skip(i + 1));
        }
        let ghost before = out@;
        if keep {
            out.push(c);
            after_hyphen = false;
            assert(out@ + collapsed(mapped.skip(i + 1), false) =~= before + (seq![c] + collapsed(
                mapped.skip(i + 1),
                false,
            )));
        } else {
            if !after_hyphen {
                out.push('-');
                assert(out@ + collapsed(mapped.skip(i + 1), true) =~= before + (seq!['-']
                    + collapsed(mapped.skip(i + 1), true)));
            }
            after_hyphen = true;
        }
        i += 1;
    }
    assert(mapped.skip(chars.len() as int) =~= Seq::empty());
    assert(out@ + Seq::<char>::empty() =~= out@);
    let ghost full = out@;
    while out.len() > 0 && out[out.len() - 1] == '-'
        invariant
            without_trailing_hyphens(full) == without_trailing_hyphens(out@),
        decreases out.len(),
    {
        let ghost before = out@;
        out.pop();
        assert(out@ =~= before.drop_last());
    }
    string_of(&out)
}

/// The name under which a mnemonic is filed: its lowercase form, with every
/// character that is not an ASCII letter or digit made a hyphen, runs of
/// hyphens made one, and hyphens at either end dropped.
pub fn slugify(s: &str) -> (out: String)
    ensures
        out@ == slug(lowercase_of(s@)),
{
    let lower = to_lowercase(s);
    slug_of_lowercase(lower.as_str())
}

/// The line that opens the front matter and the line that closes it.
pub open spec fn marker() -> Seq<char> {
    seq!['-', '-', '-', '\n']
}

/// Whether `pattern` stands in `s` at `i`.
pub open spec fn occurs_at(s: Seq<char>, pattern: Seq<char>, i: int) -> bool {
    0 <= i && i + pattern.len() <= s.len() && s.subrange(i, i + pattern.len()) == pattern
}

/// Whether `i` is the first place at which `pattern` stands in `s`.
pub open spec fn first_occurrence(s: Seq<char>, pattern: Seq<char>, i: int) -> bool {
    occurs_at(s, pattern, i) && forall|j: int| 0 <= j < i ==> !occurs_at(s, pattern, j)
}

/// `s` without the line feeds at its start.
pub open spec fn without_leading_newlines(s: Seq<char>) -> Seq<char>
    decreases s.len(),
{
    if s.len() > 0 && s[0] == '\n' {
        without_leading_newlines(s.drop_first())
    } else {
        s
    }
}

/// Whether `raw` is a framed file: it opens with the marker, and the marker
/// stands again further down.
pub open spec fn is_framed(raw: Seq<char>) -> bool {
    occurs_at(raw, marker(), 0) && exists|end: int| occurs_at(raw.skip(4), marker(), end)
}

/// Whether `front` and `body` are the two parts of the framed file `raw`:
/// `front` is what stands between the opening marker and the first marker
/// after it, and `body` is what follows that marker, without the line feeds
/// at its start.
pub open spec fn frames(raw: Seq<char>, front: Seq<char>, body: Seq<char>) -> bool {
    exists|end: int|
        {
            &&& occurs_at(raw, marker(), 0)
            &&& #[trigger] first_occurrence(raw.skip(4), marker(), end)
            &&& front == raw.skip(4).take(end)
            &&& body == without_leading_newlines(raw.skip(4).skip(end + 4))
        }
}

/// The file made of a front matter and a body: the marker, the front
/// matter, the marker, an empty line, and the body.
pub open spec fn rendered(front: Seq<char>, body: Seq<char>) -> Seq<char> {
    marker() + front + marker() + seq!['\n'] + body
}

/// Whether the marker stands in `chars` at `i`.
fn marker_at(chars: &Vec<char>, i: usize) -> (found: bool)
    ensures
        found == occurs_at(chars@, marker(), i as int),
{
    if chars.len() < 4 || i > chars.len() - 4 {
        return false;
    }
    let found = chars[i] == '-' && chars[i + 1] == '-' && chars[i + 2] == '-' && chars[i + 3]
        == '\n';
    proof {
        let part = chars@.subrange(i as int, i + 4);
        if found {
            assert(part =~= marker());
        } else {
            assert(part[0] == chars@[i as int]);
            assert(part[1] == chars@[i + 1]);
            assert(part[2] == chars@[i + 2]);
            assert(part[3] == chars@[i + 3]);
            assert(marker()[0] == '-' && marker()[1] == '-' && marker()[2] == '-' && marker()[3]
                == '\n');
        }
    }
    found
}

/// A copy of the characters of `chars` from `from` up to `to`.
fn slice_of(chars: &Vec<char>, from: usize, to: usize) -> (part: Vec<char>)
    requires
        from <= to <= chars.len(),
    ensures
        part@ == chars@.subrange(from as int, to as int),
{
    let mut out: Vec<char> = Vec::new();
    let mut i: usize = from;
    while i < to
        invariant
            from <= i <= to,
            to <= chars.len(),
            out@ == chars@.subrange(from as int, i as int),
        decreases to - i,
    {
        out.push(chars[i]);
        assert(out@ =~= chars@.subrange(from as int, i + 1));
        i += 1;
    }
    out
}

/// Splits a framed file into its front matter and its body. A file that
/// does not open with the marker, or in which no second marker follows, is
/// not framed and gives `None`.
pub fn parse_frontmatter(raw: &str) -> (parts: Option<(String, String)>)
    ensures
        match parts {
            Some((front, body)) => frames(raw@, front@, body@),
            None => !is_framed(raw@),
        },
{
    let chars = chars_of(raw);
    if !marker_at(&chars, 0) {
        return None;
    }
    let rest = slice_of(&chars, 4, chars.len());
    assert(rest@ =~= raw@.skip(4));
    let mut end: usize = 0;
    while end < rest.len() && !marker_at(&rest, end)
        invariant
            end <= rest.len(),
            forall|j: int| 0 <= j < end ==> !occurs_at(rest@, marker(), j),
        decreases rest.len() - end,
    {
        end += 1;
    }
    if end >= rest.len() {
        proof {
            assert forall|e: int| !occurs_at(rest@, marker(), e) by {
                if occurs_at(rest@, marker(), e) {
                    assert(e < rest.len());
                }
            }
        }
        return None;
    }
    assert(first_occurrence(rest@, marker(), end as int));
    let front = slice_of(&rest, 0, end);
    assert(front@ =~= rest@.take(end as int));
    let mut start: usize = end + 4;
    let ghost tail = rest@.skip(end + 4);
    assert(tail.skip(0) =~= tail);
    while start < rest.len() && rest[start] == '\n'
        invariant
            end + 4 <= start <= rest.len(),
            tail == rest@.skip(end + 4),
            without_leading_newlines(tail) == without_leading_newlines(
                rest@.skip(start as int),
            ),
        decreases rest.len() - start,
    {
        assert(rest@.skip(start as int).drop_first() =~= rest@.skip(start + 1));
        start += 1;
    }
    let body = slice_of(&rest, start, rest.len());
    assert(body@ =~= rest@.skip(start as int));
    Some((string_of(&front), string_of(&body)))
}

/// Puts a front matter and a body together into a file.
pub fn render_document(front: &str, body: &str) -> (file: String)
    ensures
        file@ == rendered(front@, body@),
{
    let mut out: Vec<char> = Vec::new();
    out.push('-');
    out.push('-');
    out.push('-');
    out.push('\n');
    assert(out@ =~= marker());
    let mut front_chars = chars_of(front);
    out.append(&mut front_chars);
    out.push('-');
    out.push('-');
    out.push('-');
    out.push('\n');
    out.push('\n');
    let mut body_chars = chars_of(body);
    out.append(&mut body_chars);
    assert(out@ =~= rendered(front@, body@));
    string_of(&out)
}

} // verus!
