//! Physical lines: splitting, indentation detection, classification.
//!
//! A document's indentation unit (2, 3 or 4 spaces) is detected from the
//! first nested line among the first 1024. Each line is then classified
//! by its depth (leading spaces divided by the unit) and kind: pair,
//! bare key, or list item; blank and comment lines are skipped.

use vstd::prelude::*;
use crate::value::Error;

verus! {

// ---------------------------------------------------------------------
// Splitting into lines
// ---------------------------------------------------------------------

/// First index at or after `i` holding a newline (or the end).
pub open spec fn scan_to_newline(s: Seq<char>, i: int) -> int
    decreases s.len() - i,
{
    if i < 0 || i >= s.len() {
        i
    } else if s[i] == '\n' {
        i
    } else {
        scan_to_newline(s, i + 1)
    }
}

/// `scan_to_newline` lands on the first newline at or after `i`.
pub proof fn lemma_scan_to_newline(s: Seq<char>, i: int)
    requires
        0 <= i <= s.len(),
    ensures
        i <= scan_to_newline(s, i) <= s.len(),
        forall|k: int| i <= k < scan_to_newline(s, i) ==> #[trigger] s[k] != '\n',
        scan_to_newline(s, i) < s.len() ==> s[scan_to_newline(s, i)] == '\n',
    decreases s.len() - i,
{
    if i < s.len() && s[i] != '\n' {
        lemma_scan_to_newline(s, i + 1);
    }
}

/// The lines of `s[i ..]`: separated by newlines, the final newline
/// terminating the last line rather than opening an empty one.
pub open spec fn split_from(s: Seq<char>, i: int) -> Seq<Seq<char>>
    decreases s.len() - i,
    via split_from_dec
{
    if i < 0 || i >= s.len() {
        Seq::empty()
    } else {
        let j = scan_to_newline(s, i);
        if j == s.len() {
            seq![s.subrange(i, j)]
        } else {
            seq![s.subrange(i, j)] + split_from(s, j + 1)
        }
    }
}

#[via_fn]
proof fn split_from_dec(s: Seq<char>, i: int) {
    if 0 <= i < s.len() {
        lemma_scan_to_newline(s, i);
    }
}

/// The lines of a document.
pub open spec fn split_lines(s: Seq<char>) -> Seq<Seq<char>> {
    split_from(s, 0)
}

/// The views of a vector of lines.
pub open spec fn lines_view(ls: Seq<Vec<char>>) -> Seq<Seq<char>> {
    ls.map_values(|l: Vec<char>| l@)
}

/// Splits a document into its lines.
#[verifier::loop_isolation(false)]
pub(crate) fn split_lines_chars(v: &Vec<char>) -> (r: Vec<Vec<char>>)
    ensures
        lines_view(r@) == split_lines(v@),
{
    let n = v.len();
    let mut out: Vec<Vec<char>> = Vec::new();
    let mut pos: usize = 0;
    proof {
        assert(lines_view(out@) =~= Seq::<Seq<char>>::empty());
    }
    while pos < n
        invariant
            pos <= n,
            lines_view(out@) + split_from(v@, pos as int) == split_lines(v@),
        decreases n - pos,
    {
        let ghost out0 = out@;
        let mut j: usize = pos;
        while j < n
            invariant
                pos <= j <= n,
                scan_to_newline(v@, pos as int) == scan_to_newline(v@, j as int),
            decreases n - j,
        {
            if v[j] == '\n' {
                break;
            }
            j = j + 1;
        }
        proof {
            lemma_scan_to_newline(v@, pos as int);
            assert(scan_to_newline(v@, pos as int) == j as int);
        }
        let mut line: Vec<char> = Vec::new();
        let mut k: usize = pos;
        while k < j
            invariant
                pos <= k <= j,
                line@ == v@.subrange(pos as int, k as int),
            decreases j - k,
        {
            line.push(v[k]);
            k = k + 1;
            proof {
                assert(line@ =~= v@.subrange(pos as int, k as int));
            }
        }
        proof {
            assert(line@ =~= v@.subrange(pos as int, j as int));
        }
        out.push(line);
        proof {
            assert(lines_view(out@) =~= lines_view(out0) + seq![v@.subrange(
                pos as int, j as int)]);
            if j < n {
                assert((lines_view(out0) + seq![v@.subrange(pos as int, j as int)])
                    + split_from(v@, j + 1) =~= lines_view(out0) + (seq![v@.subrange(
                    pos as int, j as int)] + split_from(v@, j + 1)));
            } else {
                assert((lines_view(out0) + seq![v@.subrange(pos as int, j as int)])
                    + Seq::<Seq<char>>::empty() =~= lines_view(out0) + seq![v@.subrange(
                    pos as int, j as int)]);
            }
        }
        if j < n {
            pos = j + 1;
        } else {
            pos = n;
        }
    }
    proof {
        assert(lines_view(out@) + Seq::<Seq<char>>::empty() =~= lines_view(out@));
    }
    out
}

// ---------------------------------------------------------------------
// Indentation detection
// ---------------------------------------------------------------------

/// The line starts a nested level: two or more leading spaces.
pub open spec fn is_nested(s: Seq<char>) -> bool {
    s.len() >= 2 && s[0] == ' ' && s[1] == ' '
}

/// The indentation unit a single line exhibits, if any: the shortest
/// unit consistent with the line's content starting right after its
/// leading spaces. A line with more than four leading spaces before
/// content yields nothing, as does a line that is not nested.
pub open spec fn line_width(s: Seq<char>) -> Option<u8> {
    if !is_nested(s) {
        Option::None
    } else if s.len() == 2 || s[2] != ' ' {
        Option::Some(2u8)
    } else if s.len() == 3 || s[3] != ' ' {
        Option::Some(3u8)
    } else if s.len() == 4 || s[4] != ' ' {
        Option::Some(4u8)
    } else {
        Option::None
    }
}

/// The detected unit from line `i` on, looking at most at the first
/// `limit` lines.
pub open spec fn detect_from(lines: Seq<Seq<char>>, i: int, limit: int) -> Option<u8>
    decreases limit - i,
{
    if i < 0 || i >= limit || i >= lines.len() {
        Option::None
    } else {
        match line_width(lines[i]) {
            Option::Some(w) => Option::Some(w),
            Option::None => detect_from(lines, i + 1, limit),
        }
    }
}

/// The indentation unit of a document: from the first line that
/// exhibits one, among the first 1024 lines.
pub open spec fn spec_indentation(text: Seq<char>) -> Option<u8> {
    detect_from(split_lines(text), 0, 1024)
}

/// The unit a single line exhibits.
fn line_width_exec(s: &Vec<char>) -> (r: Option<u8>)
    ensures
        r == line_width(s@),
{
    let n = s.len();
    if !(n >= 2 && s[0] == ' ' && s[1] == ' ') {
        None
    } else if n == 2 || s[2] != ' ' {
        Some(2)
    } else if n == 3 || s[3] != ' ' {
        Some(3)
    } else if n == 4 || s[4] != ' ' {
        Some(4)
    } else {
        None
    }
}

/// Gets the indentation unit of a document: 2, 3 or 4 spaces, detected
/// from the first nested line among the first 1024; nothing for a flat
/// document.
pub fn indentation(data: &str) -> (r: Option<u8>)
    ensures
        r == spec_indentation(data@),
{
    let v = crate::chars::str_to_chars(data);
    let lines = split_lines_chars(&v);
    detect_exec(&lines)
}

/// Detection over already split lines.
#[verifier::loop_isolation(false)]
pub(crate) fn detect_exec(lines: &Vec<Vec<char>>) -> (r: Option<u8>)
    ensures
        r == detect_from(lines_view(lines@), 0, 1024),
{
    let n = lines.len();
    let lim: usize = if n < 1024 {
        n
    } else {
        1024
    };
    let mut i: usize = 0;
    while i < lim
        invariant
            i <= lim,
            detect_from(lines_view(lines@), 0, 1024) == detect_from(
                lines_view(lines@), i as int, 1024),
        decreases lim - i,
    {
        proof {
            assert(lines_view(lines@)[i as int] == lines[i as int]@);
        }
        if let Some(w) = line_width_exec(&lines[i]) {
            return Some(w);
        }
        i = i + 1;
    }
    None
}

/// Law: for a document whose first nested line (two or more leading
/// spaces) within the first 1024 lines starts with exactly `k` leading
/// spaces before its content, `k` being 2, 3 or 4, detection returns
/// `k`.
pub proof fn lemma_indentation_detects(lines: Seq<Seq<char>>, i: int, k: int)
    requires
        0 <= i < 1024,
        i < lines.len(),
        forall|j: int| 0 <= j < i ==> !is_nested(#[trigger] lines[j]),
        2 <= k <= 4,
        lines[i].len() >= k,
        forall|j: int| 0 <= j < k ==> lines[i][j] == ' ',
        lines[i].len() == k || lines[i][k] != ' ',
    ensures
        detect_from(lines, 0, 1024) == Option::Some(k as u8),
{
    lemma_detect_at(lines, i, k, 1024);
}

proof fn lemma_detect_at(lines: Seq<Seq<char>>, i: int, k: int, limit: int)
    requires
        0 <= i < limit,
        i < lines.len(),
        forall|j: int| 0 <= j < i ==> !is_nested(#[trigger] lines[j]),
        2 <= k <= 4,
        lines[i].len() >= k,
        forall|j: int| 0 <= j < k ==> lines[i][j] == ' ',
        lines[i].len() == k || lines[i][k] != ' ',
    ensures
        detect_from(lines, 0, limit) == Option::Some(k as u8),
    decreases i,
{
    if i == 0 {
        assert(line_width(lines[0]) == Option::Some(k as u8));
    } else {
        let shifted = lines.drop_first();
        assert(forall|j: int| 0 <= j < i - 1 ==> !is_nested(#[trigger] shifted[j]));
        assert(shifted[i - 1] == lines[i]);
        assert(!is_nested(lines[0]));
        assert(line_width(lines[0]) is None);
        lemma_detect_shift(lines, limit);
        lemma_detect_at(shifted, i - 1, k, limit - 1);
    }
}

/// Law: when no line among the first 1024 is nested, detection returns
/// nothing.
pub proof fn lemma_indentation_none(lines: Seq<Seq<char>>)
    requires
        forall|j: int| 0 <= j < lines.len() && j < 1024 ==> !is_nested(#[trigger] lines[j]),
    ensures
        detect_from(lines, 0, 1024) is None,
{
    lemma_detect_none_from(lines, 0);
}

proof fn lemma_detect_none_from(lines: Seq<Seq<char>>, i: int)
    requires
        0 <= i,
        forall|j: int| i <= j < lines.len() && j < 1024 ==> !is_nested(#[trigger] lines[j]),
    ensures
        detect_from(lines, i, 1024) is None,
    decreases 1024 - i,
{
    if i < 1024 && i < lines.len() {
        lemma_detect_none_from(lines, i + 1);
    }
}

/// Dropping a skipped first line shifts detection by one.
proof fn lemma_detect_shift(lines: Seq<Seq<char>>, limit: int)
    requires
        lines.len() > 0,
        line_width(lines[0]) is None,
        limit >= 2,
    ensures
        detect_from(lines, 0, limit) == detect_from(lines.drop_first(), 0, limit - 1),
    decreases limit,
{
    lemma_detect_shift_from(lines, 1, limit);
}

proof fn lemma_detect_shift_from(lines: Seq<Seq<char>>, i: int, limit: int)
    requires
        lines.len() > 0,
        1 <= i,
        i <= limit,
    ensures
        detect_from(lines, i, limit) == detect_from(lines.drop_first(), i - 1, limit - 1),
    decreases limit - i,
{
    let shifted = lines.drop_first();
    if i < limit && i < lines.len() {
        assert(shifted[i - 1] == lines[i]);
        lemma_detect_shift_from(lines, i + 1, limit);
    }
}

// ---------------------------------------------------------------------
// Classification
// ---------------------------------------------------------------------

/// First index at or after `i` holding no space (or the end).
pub open spec fn scan_spaces(s: Seq<char>, i: int) -> int
    decreases s.len() - i,
{
    if i < 0 || i >= s.len() {
        i
    } else if s[i] == ' ' {
        scan_spaces(s, i + 1)
    } else {
        i
    }
}

/// `scan_spaces` lands after the leading run of spaces.
pub proof fn lemma_scan_spaces(s: Seq<char>, i: int)
    requires
        0 <= i <= s.len(),
    ensures
        i <= scan_spaces(s, i) <= s.len(),
        forall|k: int| i <= k < scan_spaces(s, i) ==> #[trigger] s[k] == ' ',
        scan_spaces(s, i) < s.len() ==> s[scan_spaces(s, i)] != ' ',
    decreases s.len() - i,
{
    if i < s.len() && s[i] == ' ' {
        lemma_scan_spaces(s, i + 1);
    }
}

/// First index at or after `i` holding an unescaped colon (or the end).
/// A colon immediately preceded by a backslash is escaped.
pub open spec fn colon_pos(s: Seq<char>, i: int) -> int
    decreases s.len() - i,
{
    if i < 0 || i >= s.len() {
        i
    } else if s[i] == ':' && (i == 0 || s[i - 1] != '\\') {
        i
    } else {
        colon_pos(s, i + 1)
    }
}

/// `colon_pos` lands on the first unescaped colon.
pub proof fn lemma_colon_pos(s: Seq<char>, i: int)
    requires
        0 <= i <= s.len(),
    ensures
        i <= colon_pos(s, i) <= s.len(),
        forall|k: int| i <= k < colon_pos(s, i)
            ==> !(#[trigger] s[k] == ':' && (k == 0 || s[k - 1] != '\\')),
        colon_pos(s, i) < s.len() ==> s[colon_pos(s, i)] == ':'
            && (colon_pos(s, i) == 0 || s[colon_pos(s, i) - 1] != '\\'),
    decreases s.len() - i,
{
    if i < s.len() && !(s[i] == ':' && (i == 0 || s[i - 1] != '\\')) {
        lemma_colon_pos(s, i + 1);
    }
}

/// The structural kind of a line.
#[derive(Clone, Copy)]
pub enum LineKind {
    /// `key: value` or `key:`.
    Pair,
    /// A key alone, introducing a nested container.
    BareKey,
    /// `- value` or `-`, an element of a list.
    ListItem,
}

/// One classified line.
pub struct Line {
    /// The kind of the line.
    pub kind: LineKind,
    /// Nesting depth: leading spaces divided by the indentation unit.
    pub depth: usize,
    /// The raw key text (empty for a list item).
    pub key: Vec<char>,
    /// The inline payload, when the line carries one.
    pub payload: Option<Vec<char>>,
}

/// Mathematical mirror of [`Line`].
pub struct LineV {
    pub kind: LineKind,
    pub depth: int,
    pub key: Seq<char>,
    pub payload: Option<Seq<char>>,
}

impl View for Line {
    type V = LineV;

    open spec fn view(&self) -> LineV {
        LineV {
            kind: self.kind,
            depth: self.depth as int,
            key: self.key@,
            payload: match self.payload {
                Option::Some(ref p) => Option::Some(p@),
                Option::None => Option::None,
            },
        }
    }
}

/// The outcome of classifying one physical line.
pub enum ClassV {
    /// Blank or comment: ignored entirely.
    Skip,
    /// A structural line.
    Ln(LineV),
    /// The line is refused.
    Fail(Error),
}

/// Classifies one physical line against the indentation unit: blank and
/// comment lines are skipped; leading spaces must be an exact multiple
/// of the unit; the remainder is a list item (`- ` or `-`), a pair
/// (`key: value`, `key:`), or a bare key.
pub open spec fn classify(s: Seq<char>, width: int) -> ClassV {
    let sp = scan_spaces(s, 0);
    let m = s.len() as int;
    if sp == m {
        ClassV::Skip
    } else if s[sp] == '#' {
        ClassV::Skip
    } else if sp % width != 0 {
        ClassV::Fail(Error::Indentation)
    } else {
        let depth = sp / width;
        let rest = s.subrange(sp, m);
        if rest == seq!['-'] {
            ClassV::Ln(LineV {
                kind: LineKind::ListItem,
                depth: depth,
                key: Seq::empty(),
                payload: Option::None,
            })
        } else if rest.len() >= 2 && rest[0] == '-' && rest[1] == ' ' {
            ClassV::Ln(LineV {
                kind: LineKind::ListItem,
                depth: depth,
                key: Seq::empty(),
                payload: Option::Some(rest.subrange(2, rest.len() as int)),
            })
        } else {
            let cp = colon_pos(rest, 0);
            if cp == rest.len() {
                ClassV::Ln(LineV {
                    kind: LineKind::BareKey,
                    depth: depth,
                    key: rest,
                    payload: Option::None,
                })
            } else if cp == 0 {
                ClassV::Fail(Error::Syntax)
            } else if cp == rest.len() - 1 {
                ClassV::Ln(LineV {
                    kind: LineKind::Pair,
                    depth: depth,
                    key: rest.subrange(0, cp),
                    payload: Option::None,
                })
            } else if rest[cp + 1] == ' ' {
                ClassV::Ln(LineV {
                    kind: LineKind::Pair,
                    depth: depth,
                    key: rest.subrange(0, cp),
                    payload: Option::Some(rest.subrange(cp + 2, rest.len() as int)),
                })
            } else {
                ClassV::Fail(Error::Syntax)
            }
        }
    }
}

/// The outcome of classifying one physical line.
pub(crate) enum ClassRes {
    Skip,
    Ln(Line),
    Fail(Error),
}

/// Classifies one physical line.
#[verifier::loop_isolation(false)]
pub(crate) fn classify_exec(s: &Vec<char>, width: u8) -> (r: ClassRes)
    requires
        width >= 1,
    ensures
        r matches ClassRes::Skip ==> classify(s@, width as int) == ClassV::Skip,
        r matches ClassRes::Ln(l) ==> classify(s@, width as int) == ClassV::Ln(l@),
        r matches ClassRes::Fail(e) ==> classify(s@, width as int) == ClassV::Fail(e),
{
    let n = s.len();
    let mut sp: usize = 0;
    while sp < n
        invariant
            sp <= n,
            scan_spaces(s@, 0) == scan_spaces(s@, sp as int),
        decreases n - sp,
    {
        if s[sp] != ' ' {
            break;
        }
        sp = sp + 1;
    }
    proof {
        lemma_scan_spaces(s@, 0);
        assert(scan_spaces(s@, 0) == sp as int);
    }
    if sp == n {
        return ClassRes::Skip;
    }
    if s[sp] == '#' {
        return ClassRes::Skip;
    }
    if sp % (width as usize) != 0 {
        return ClassRes::Fail(Error::Indentation);
    }
    let depth = sp / (width as usize);
    let ghost rest = s@.subrange(sp as int, n as int);
    let m = n - sp;
    if m == 1 && s[sp] == '-' {
        proof {
            assert(rest =~= seq!['-']);
        }
        return ClassRes::Ln(Line {
            kind: LineKind::ListItem,
            depth: depth,
            key: Vec::new(),
            payload: None,
        });
    }
    if m >= 2 && s[sp] == '-' && s[sp + 1] == ' ' {
        let p = crate::scalar::subvec_pub(s, sp + 2, n);
        proof {
            assert(rest[0] == '-' && rest[1] == ' ');
            assert(p@ =~= rest.subrange(2, rest.len() as int));
        }
        return ClassRes::Ln(Line {
            kind: LineKind::ListItem,
            depth: depth,
            key: Vec::new(),
            payload: Some(p),
        });
    }
    proof {
        if rest == seq!['-'] {
            assert(rest.len() == 1 && rest[0] == '-');
            assert(s@[sp as int] == '-');
        }
        if rest.len() >= 2 && rest[0] == '-' && rest[1] == ' ' {
            assert(s@[sp as int] == '-' && s@[sp as int + 1] == ' ');
        }
    }
    // Find the first unescaped colon of the remainder.
    let mut cp: usize = 0;
    while cp < m
        invariant
            cp <= m,
            m == rest.len(),
            colon_pos(rest, 0) == colon_pos(rest, cp as int),
        decreases m - cp,
    {
        proof {
            assert(rest[cp as int] == s@[sp + cp]);
            if cp > 0 {
                assert(rest[cp as int - 1] == s@[sp + cp - 1]);
            }
        }
        if s[sp + cp] == ':' && (cp == 0 || s[sp + cp - 1] != '\\') {
            break;
        }
        cp = cp + 1;
    }
    proof {
        lemma_colon_pos(rest, 0);
        assert(colon_pos(rest, 0) == cp as int);
    }
    if cp == m {
        let k = crate::scalar::subvec_pub(s, sp, n);
        proof {
            assert(k@ =~= rest);
        }
        return ClassRes::Ln(Line {
            kind: LineKind::BareKey,
            depth: depth,
            key: k,
            payload: None,
        });
    }
    if cp == 0 {
        return ClassRes::Fail(Error::Syntax);
    }
    let k = crate::scalar::subvec_pub(s, sp, sp + cp);
    proof {
        assert(k@ =~= rest.subrange(0, cp as int));
    }
    if cp == m - 1 {
        return ClassRes::Ln(Line {
            kind: LineKind::Pair,
            depth: depth,
            key: k,
            payload: None,
        });
    }
    proof {
        assert(rest[cp as int + 1] == s@[sp + cp + 1]);
    }
    if s[sp + cp + 1] == ' ' {
        let p = crate::scalar::subvec_pub(s, sp + cp + 2, n);
        proof {
            assert(p@ =~= rest.subrange(cp as int + 2, rest.len() as int));
        }
        return ClassRes::Ln(Line {
            kind: LineKind::Pair,
            depth: depth,
            key: k,
            payload: Some(p),
        });
    }
    ClassRes::Fail(Error::Syntax)
}

/// Law: a line whose leading spaces are no multiple of the detected
/// unit, and which is neither blank nor a comment, is refused as an
/// indentation inconsistency, never classified at a wrong depth.
pub proof fn lemma_classify_indentation(s: Seq<char>, width: int)
    requires
        width >= 1,
        scan_spaces(s, 0) < s.len(),
        s[scan_spaces(s, 0)] != '#',
        scan_spaces(s, 0) % width != 0,
    ensures
        classify(s, width) == ClassV::Fail(Error::Indentation),
{
}

} // verus!
