//! Splitting a card's text into slides at CommonMark thematic breaks: a line
//! of three or more hyphens, not indented like a code block and not sitting
//! under a text line (which would make it a Setext heading underline).

use vstd::prelude::*;

verus! {

/// The White_Space property of a character, as `char::is_whitespace` decides
/// it from the Unicode tables.
pub uninterp spec fn is_unicode_whitespace(c: char) -> bool;

/// Relies on `char::is_whitespace`: the result depends on the character
/// alone.
#[verifier::external_body]
fn char_is_whitespace(c: char) -> (r: bool)
    ensures
        r == is_unicode_whitespace(c),
{
    c.is_whitespace()
}

/// The alphanumeric classes of a character, as `char::is_alphanumeric`
/// decides them from the Unicode tables.
pub uninterp spec fn is_unicode_alphanumeric(c: char) -> bool;

/// Relies on `char::is_alphanumeric`: the result depends on the character
/// alone.
#[verifier::external_body]
fn char_is_alphanumeric(c: char) -> (r: bool)
    ensures
        r == is_unicode_alphanumeric(c),
{
    c.is_alphanumeric()
}

/// Length of the first line, its ending included; the whole text when no
/// line feed occurs.
pub open spec fn first_line_len(s: Seq<char>) -> nat
    decreases s.len(),
{
    if s.len() == 0 {
        0
    } else if s[0] == '\n' {
        1
    } else {
        1 + first_line_len(s.drop_first())
    }
}

/// The first line ends in a line feed (so another line follows).
pub open spec fn line_has_ending(line: Seq<char>) -> bool {
    line.len() > 0 && line[line.len() - 1] == '\n'
}

/// A line without its ending (a trailing line feed, or carriage return plus
/// line feed).
pub open spec fn line_content(line: Seq<char>) -> Seq<char> {
    if line.len() >= 2 && line[line.len() - 1] == '\n' && line[line.len() - 2] == '\r' {
        line.take(line.len() - 2)
    } else if line.len() >= 1 && line[line.len() - 1] == '\n' {
        line.take(line.len() - 1)
    } else {
        line
    }
}

/// How many leading characters are whitespace.
pub open spec fn ws_prefix_len(s: Seq<char>) -> nat
    decreases s.len(),
{
    if s.len() == 0 {
        0
    } else if is_unicode_whitespace(s[0]) {
        1 + ws_prefix_len(s.drop_first())
    } else {
        0
    }
}

/// The line's indentation is under four characters and all plain spaces —
/// anything else reads as an indented code block.
pub open spec fn indent_ok(s: Seq<char>) -> bool {
    ws_prefix_len(s) < 4 && (forall|i: int| 0 <= i < ws_prefix_len(s) ==> s[i] == ' ')
}

/// The line with its indentation removed.
pub open spec fn stripped(s: Seq<char>) -> Seq<char> {
    s.skip(ws_prefix_len(s) as int)
}

/// How many leading characters are hyphens.
pub open spec fn hyphen_prefix_len(s: Seq<char>) -> nat
    decreases s.len(),
{
    if s.len() == 0 {
        0
    } else if s[0] == '-' {
        1 + hyphen_prefix_len(s.drop_first())
    } else {
        0
    }
}

/// A thematic break line: unindented enough, not starting alphanumerically,
/// at least three leading hyphens, and nothing but whitespace past the
/// character that ends the hyphen run.
pub open spec fn is_break_line(c: Seq<char>) -> bool {
    &&& indent_ok(c)
    &&& !(stripped(c).len() > 0 && is_unicode_alphanumeric(stripped(c)[0]))
    &&& hyphen_prefix_len(stripped(c)) >= 3
    &&& (forall|i: int|
        hyphen_prefix_len(stripped(c)) + 1 <= i < stripped(c).len() ==> is_unicode_whitespace(
            stripped(c)[i],
        ))
}

/// A text line: the next line cannot be a thematic break, since hyphens
/// under it would underline a Setext heading.
pub open spec fn inhibits(c: Seq<char>) -> bool {
    indent_ok(c) && stripped(c).len() > 0 && is_unicode_alphanumeric(stripped(c)[0])
}

/// Scans for the first effective thematic break: the characters consumed
/// (the break line included), the break line's length, and whether text
/// follows the break.
pub open spec fn scan(s: Seq<char>, can_break: bool) -> (nat, nat, bool)
    decreases s.len(),
{
    if s.len() == 0 {
        (0, 0, false)
    } else {
        let l = first_line_len(s);
        if l == 0 || l > s.len() {
            (0, 0, false)
        } else {
            let line = s.take(l as int);
            let c = line_content(line);
            if can_break && is_break_line(c) {
                (l, l, line_has_ending(line))
            } else {
                let rest = scan(s.skip(l as int), !inhibits(c));
                ((l + rest.0) as nat, rest.1, rest.2)
            }
        }
    }
}

/// The scan's break never outruns what it consumed, nor the text.
proof fn lemma_scan_bounds(s: Seq<char>, can_break: bool)
    ensures
        scan(s, can_break).1 <= scan(s, can_break).0 <= s.len(),
    decreases s.len(),
{
    if s.len() > 0 {
        let l = first_line_len(s);
        if l == 0 || l > s.len() {
        } else {
            let line = s.take(l as int);
            let c = line_content(line);
            if can_break && is_break_line(c) {
            } else {
                lemma_scan_bounds(s.skip(l as int), !inhibits(c));
            }
        }
    }
}

/// The first line of a nonempty text has between one character and all of
/// them.
proof fn lemma_first_line_len_bounds(s: Seq<char>)
    ensures
        s.len() > 0 ==> 1 <= first_line_len(s) <= s.len(),
    decreases s.len(),
{
    if s.len() > 0 && s[0] != '\n' {
        let t = s.drop_first();
        lemma_first_line_len_bounds(t);
        if t.len() == 0 {
            assert(first_line_len(t) == 0);
        }
        assert(first_line_len(s) == 1 + first_line_len(t));
    }
}

/// The first line runs to the first line feed, or to the end.
proof fn lemma_first_line_len_char(s: Seq<char>, k: int)
    requires
        0 <= k <= s.len(),
        forall|i: int| 0 <= i < k ==> (#[trigger] s[i]) != '\n',
        k == s.len() || s[k] == '\n',
    ensures
        first_line_len(s) == if k == s.len() {
            s.len() as int
        } else {
            k + 1
        },
    decreases k,
{
    if s.len() > 0 {
        if k == 0 {
        } else {
            let t = s.drop_first();
            assert forall|i: int| 0 <= i < k - 1 implies (#[trigger] t[i]) != '\n' by {
                assert(t[i] == s[i + 1]);
            }
            if k - 1 < t.len() {
                assert(t[k - 1] == s[k]);
            }
            lemma_first_line_len_char(t, k - 1);
        }
    }
}

/// The whitespace prefix runs to the first non-whitespace character, or to
/// the end.
proof fn lemma_ws_prefix_char(s: Seq<char>, k: int)
    requires
        0 <= k <= s.len(),
        forall|i: int| 0 <= i < k ==> is_unicode_whitespace(#[trigger] s[i]),
        k == s.len() || !is_unicode_whitespace(s[k]),
    ensures
        ws_prefix_len(s) == k,
    decreases k,
{
    if s.len() == 0 {
    } else if k == 0 {
    } else {
        let t = s.drop_first();
        assert(is_unicode_whitespace(s[0]));
        assert forall|i: int| 0 <= i < k - 1 implies is_unicode_whitespace(#[trigger] t[i]) by {
            assert(t[i] == s[i + 1]);
        }
        if k - 1 < t.len() {
            assert(t[k - 1] == s[k]);
        }
        lemma_ws_prefix_char(t, k - 1);
    }
}

/// The hyphen prefix runs to the first non-hyphen character, or to the end.
proof fn lemma_hyphen_prefix_char(s: Seq<char>, k: int)
    requires
        0 <= k <= s.len(),
        forall|i: int| 0 <= i < k ==> (#[trigger] s[i]) == '-',
        k == s.len() || s[k] != '-',
    ensures
        hyphen_prefix_len(s) == k,
    decreases k,
{
    if s.len() == 0 {
    } else if k == 0 {
    } else {
        let t = s.drop_first();
        assert forall|i: int| 0 <= i < k - 1 implies (#[trigger] t[i]) == '-' by {
            assert(t[i] == s[i + 1]);
        }
        if k - 1 < t.len() {
            assert(t[k - 1] == s[k]);
        }
        lemma_hyphen_prefix_char(t, k - 1);
    }
}

/// Unindents a line, refusing one that reads as an indented code block: four
/// or more columns of indentation, or any indentation character other than a
/// plain space.
pub fn strip_indent<'a>(source: &'a str) -> (r: Option<&'a str>)
    ensures
        match r {
            Some(t) => indent_ok(source@) && t@ == stripped(source@),
            None => !indent_ok(source@),
        },
{
    let n = source.unicode_len();
    let mut k: usize = 0;
    while k < n
        invariant_except_break
            0 <= k <= n,
            n == source@.len(),
            forall|i: int| 0 <= i < k ==> is_unicode_whitespace(#[trigger] source@[i]),
        ensures
            0 <= k <= n,
            n == source@.len(),
            forall|i: int| 0 <= i < k ==> is_unicode_whitespace(#[trigger] source@[i]),
            k == n || !is_unicode_whitespace(source@[k as int]),
        decreases n - k,
    {
        if !char_is_whitespace(source.get_char(k)) {
            break ;
        }
        k += 1;
    }
    proof {
        lemma_ws_prefix_char(source@, k as int);
    }
    if k >= 4 {
        return None;
    }
    let mut i: usize = 0;
    while i < k
        invariant
            0 <= i <= k,
            k < 4,
            k <= n,
            n == source@.len(),
            ws_prefix_len(source@) == k,
            forall|j: int| 0 <= j < i ==> (#[trigger] source@[j]) == ' ',
        decreases k - i,
    {
        if source.get_char(i) != ' ' {
            assert(!indent_ok(source@));
            return None;
        }
        i += 1;
    }
    let t = source.substring_char(k, n);
    proof {
        assert(t@ =~= stripped(source@));
    }
    Some(t)
}

/// Breaks a text into sections at thematic breaks, as `next` is called.
pub struct ThematicBreaks<'a> {
    pub source: Option<&'a str>,
}

impl<'a> ThematicBreaks<'a> {
    /// Starts a split over the whole text.
    pub fn new(source: &'a str) -> (r: Self)
        ensures
            r.source == Some(source),
    {
        Self { source: Some(source) }
    }

    /// The next section: the text up to (and not including) the first
    /// effective thematic break, the remainder being kept for later calls;
    /// the final section runs to the end of the text.  Absent once the text
    /// is used up.
    pub fn next(&mut self) -> (r: Option<&'a str>)
        ensures
            match old(self).source {
                None => r is None && final(self).source is None,
                Some(src) => {
                    &&& r is Some
                    &&& r->0@ == src@.take(
                        (scan(src@, true).0 - scan(src@, true).1) as int,
                    )
                    &&& (scan(src@, true).2 ==> final(self).source is Some
                        && final(self).source->0@ == src@.skip(scan(src@, true).0 as int))
                    &&& (!scan(src@, true).2 ==> final(self).source is None)
                },
            },
    {
        let src = match self.source {
            Some(s) => s,
            None => {
                return None;
            },
        };
        let n = src.unicode_len();
        let ghost whole = scan(src@, true);

        let mut pos: usize = 0;
        let mut can_break = true;
        let mut break_len: usize = 0;
        let mut has_next = false;
        proof {
            assert(src@.skip(0) =~= src@);
        }
        while pos < n
            invariant_except_break
                0 <= pos <= n,
                n == src@.len(),
                break_len == 0,
                has_next == false,
                whole == scan(src@, true),
                whole.0 == pos + scan(src@.skip(pos as int), can_break).0,
                whole.1 == scan(src@.skip(pos as int), can_break).1,
                whole.2 == scan(src@.skip(pos as int), can_break).2,
            ensures
                0 <= pos <= n,
                n == src@.len(),
                whole == scan(src@, true),
                whole.0 == pos,
                whole.1 == break_len,
                whole.2 == has_next,
            decreases n - pos,
        {
            let ghost tail = src@.skip(pos as int);
            let l = line_len_at(src, pos);
            let ghost line = tail.take(first_line_len(tail) as int);
            let ghost c = line_content(line);
            proof {
                lemma_first_line_len_bounds(tail);
                assert(tail.skip(l as int) =~= src@.skip(pos + l));
            }
            let (brk, inh) = classify_line(src, pos, l);
            if can_break && brk {
                break_len = l;
                has_next = src.get_char(pos + l - 1) == '\n';
                proof {
                    assert(line[line.len() - 1] == src@[pos + l - 1]);
                    assert(scan(tail, can_break) == (
                        first_line_len(tail),
                        first_line_len(tail),
                        line_has_ending(line),
                    ));
                }
                pos = pos + l;
                break ;
            }
            proof {
                assert(scan(tail, can_break).0 == first_line_len(tail) + scan(
                    src@.skip(pos + l),
                    !inhibits(c),
                ).0);
                assert(scan(tail, can_break).1 == scan(src@.skip(pos + l), !inhibits(c)).1);
                assert(scan(tail, can_break).2 == scan(src@.skip(pos + l), !inhibits(c)).2);
            }
            can_break = !inh;
            pos = pos + l;
        }
        proof {
            lemma_scan_bounds(src@, true);
        }
        let section = src.substring_char(0, pos - break_len);
        proof {
            assert(section@ =~= src@.take((whole.0 - whole.1) as int));
        }
        if has_next {
            let rest = src.substring_char(pos, n);
            proof {
                assert(rest@ =~= src@.skip(whole.0 as int));
            }
            self.source = Some(rest);
        } else {
            self.source = None;
        }
        Some(section)
    }
}

/// Length of the line starting at the position, its ending included.
fn line_len_at(src: &str, pos: usize) -> (l: usize)
    requires
        pos < src@.len(),
    ensures
        l == first_line_len(src@.skip(pos as int)),
        1 <= l,
        pos + l <= src@.len(),
{
    let n = src.unicode_len();
    let mut j: usize = pos;
    while j < n
        invariant_except_break
            pos <= j <= n,
            n == src@.len(),
            forall|i: int| pos <= i < j ==> (#[trigger] src@[i]) != '\n',
        ensures
            pos <= j <= n,
            n == src@.len(),
            forall|i: int| pos <= i < j ==> (#[trigger] src@[i]) != '\n',
            j == n || src@[j as int] == '\n',
        decreases n - j,
    {
        if src.get_char(j) == '\n' {
            break ;
        }
        j += 1;
    }
    let ghost tail = src@.skip(pos as int);
    proof {
        assert forall|i: int| 0 <= i < j - pos implies (#[trigger] tail[i]) != '\n' by {
            assert(tail[i] == src@[pos + i]);
        }
        if (j as int) - (pos as int) < tail.len() {
            assert(tail[j - pos] == src@[j as int]);
        }
        lemma_first_line_len_char(tail, j - pos);
        lemma_first_line_len_bounds(tail);
    }
    if j < n {
        j + 1 - pos
    } else {
        n - pos
    }
}

/// Whether the line starting at the position (of the given full length) is a
/// thematic break line, and whether it is a text line that inhibits one.
fn classify_line(src: &str, pos: usize, l: usize) -> (r: (bool, bool))
    requires
        pos < src@.len(),
        l == first_line_len(src@.skip(pos as int)),
        1 <= l,
        pos + l <= src@.len(),
        src@.len() <= usize::MAX,
    ensures
        r.0 == is_break_line(line_content(src@.skip(pos as int).take(l as int))),
        r.1 == inhibits(line_content(src@.skip(pos as int).take(l as int))),
{
    let ghost line = src@.skip(pos as int).take(l as int);
    let mut ce: usize = pos + l;
    if src.get_char(pos + l - 1) == '\n' {
        ce = pos + l - 1;
        if l >= 2 && src.get_char(pos + l - 2) == '\r' {
            ce = pos + l - 2;
        }
    }
    let content = src.substring_char(pos, ce);
    proof {
        assert(line[line.len() - 1] == src@[pos + l - 1]);
        if line.len() >= 2 {
            assert(line[line.len() - 2] == src@[pos + l - 2]);
        }
        assert(content@ =~= line_content(line));
    }
    let t = match strip_indent(content) {
        Some(t) => t,
        None => {
            return (false, false);
        },
    };
    let tn = t.unicode_len();
    if tn > 0 && char_is_alphanumeric(t.get_char(0)) {
        return (false, true);
    }
    let mut h: usize = 0;
    while h < tn
        invariant_except_break
            0 <= h <= tn,
            tn == t@.len(),
            forall|i: int| 0 <= i < h ==> (#[trigger] t@[i]) == '-',
        ensures
            0 <= h <= tn,
            tn == t@.len(),
            forall|i: int| 0 <= i < h ==> (#[trigger] t@[i]) == '-',
            h == tn || t@[h as int] != '-',
        decreases tn - h,
    {
        if t.get_char(h) != '-' {
            break ;
        }
        h += 1;
    }
    proof {
        lemma_hyphen_prefix_char(t@, h as int);
    }
    if h < 3 {
        return (false, false);
    }
    if h < tn {
        let mut i: usize = h + 1;
        while i < tn
            invariant_except_break
                h + 1 <= i <= tn,
                tn == t@.len(),
                forall|j: int| h + 1 <= j < i ==> is_unicode_whitespace(#[trigger] t@[j]),
            ensures
                h + 1 <= i <= tn,
                tn == t@.len(),
                forall|j: int| h + 1 <= j < i ==> is_unicode_whitespace(#[trigger] t@[j]),
                i == tn || !is_unicode_whitespace(t@[i as int]),
            decreases tn - i,
        {
            if !char_is_whitespace(t.get_char(i)) {
                break ;
            }
            i += 1;
        }
        if i < tn {
            proof {
                assert(!is_break_line(line_content(line)));
            }
            return (false, false);
        }
    }
    proof {
        assert(is_break_line(line_content(line)));
    }
    (true, false)
}

} // verus!
