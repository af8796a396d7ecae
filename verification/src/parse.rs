//! The structural decoder and the document parser.
//!
//! A document is a sequence of top-level entries at depth zero, each a
//! pair or a bare key. A nested block at the next depth is a list when
//! its first structural line is a list item; otherwise it is a record
//! when its first key is a bare name (a letter or underscore followed by
//! letters, digits and underscores), and a dictionary otherwise, whose
//! keys are decoded values. A pair with an inline payload decodes it
//! under the fixed priority of [`crate::scalar::any_of`]; a pair without
//! one and without a nested block is an absent optional value. A
//! container's decode stops at the first shallower sibling, a line of an
//! incompatible kind, or the end of input.
//!
//! [`Parser`] exposes the document as a lazy, forward-only sequence of
//! named values; after an error it only reports exhaustion.

use vstd::prelude::*;
use crate::value::{Value, ValueV, Error, Int, fields_view, pairs_view, items_view, value_view,
    lemma_fields_view, lemma_pairs_view, lemma_items_view};
use crate::scalar::{any_of, text_wf, unescape, is_digit, unescape_chars, decode_any_chars};
use crate::line::{classify, ClassV, ClassRes, classify_exec, LineKind, Line, split_lines,
    split_lines_chars, spec_indentation, detect_exec};
use crate::chars::{str_to_chars, chars_to_string};

verus! {

// ---------------------------------------------------------------------
// Cursor helpers
// ---------------------------------------------------------------------

/// First index at or after `i` of a line that is neither blank nor a
/// comment (or the number of lines).
pub open spec fn next_struct(lines: Seq<Seq<char>>, width: int, i: int) -> int
    decreases lines.len() - i,
{
    if i < 0 || i >= lines.len() {
        lines.len() as int
    } else if classify(lines[i], width) is Skip {
        next_struct(lines, width, i + 1)
    } else {
        i
    }
}

/// `next_struct` lands on the first structural line.
pub proof fn lemma_next_struct(lines: Seq<Seq<char>>, width: int, i: int)
    requires
        0 <= i <= lines.len(),
    ensures
        i <= next_struct(lines, width, i) <= lines.len(),
        next_struct(lines, width, i) < lines.len() ==> !(classify(
            lines[next_struct(lines, width, i)], width) is Skip),
    decreases lines.len() - i,
{
    if i < lines.len() && classify(lines[i], width) is Skip {
        lemma_next_struct(lines, width, i + 1);
    }
}

/// A child cursor, kept strictly past `lo` and within the line count.
/// Child decodes in fact always return such a cursor; the bound keeps
/// the recursion well-founded.
pub open spec fn clamp_pos(j: int, lo: int, len: int) -> int {
    if j < lo {
        lo
    } else if j > len {
        len
    } else {
        j
    }
}

/// `c` may appear in a bare record-field name.
pub open spec fn is_name_char(c: char) -> bool {
    (97 <= c as u32 <= 122) || (65 <= c as u32 <= 90) || is_digit(c) || c == '_'
}

/// `k` is a bare name: non-empty, name characters only, not starting
/// with a digit. A block of pairs whose first key is a bare name is a
/// record; any other first key makes it a dictionary.
pub open spec fn is_bare_name(k: Seq<char>) -> bool {
    k.len() > 0 && !is_digit(k[0]) && forall|i: int| 0 <= i < k.len()
        ==> is_name_char(#[trigger] k[i])
}

/// Record field names are pairwise distinct.
pub open spec fn unique_names(fields: Seq<(Seq<char>, ValueV)>) -> bool {
    forall|i: int, j: int| 0 <= i < j < fields.len()
        ==> (#[trigger] fields[i]).0 != (#[trigger] fields[j]).0
}

/// Dictionary keys are pairwise distinct by value equality.
pub open spec fn unique_keys(pairs: Seq<(ValueV, ValueV)>) -> bool {
    forall|i: int, j: int| 0 <= i < j < pairs.len()
        ==> (#[trigger] pairs[i]).0 != (#[trigger] pairs[j]).0
}

// ---------------------------------------------------------------------
// The structural decode, stated
// ---------------------------------------------------------------------

/// Decodes the nested block whose first structural line stands at or
/// after `i` and must sit at `depth`: a list, a record or a dictionary.
pub open spec fn spec_block(lines: Seq<Seq<char>>, width: int, i: int, depth: int)
    -> Result<(ValueV, int), Error>
    decreases lines.len() - i, 3int,
    via spec_block_dec
{
    let j = next_struct(lines, width, i);
    if j >= lines.len() {
        Result::Err(Error::Depth)
    } else {
        match classify(lines[j], width) {
            ClassV::Fail(e) => Result::Err(e),
            ClassV::Skip => Result::Err(Error::Depth),
            ClassV::Ln(l) => {
                if l.depth != depth {
                    Result::Err(Error::Depth)
                } else if l.kind is ListItem {
                    match spec_list(lines, width, j, depth) {
                        Result::Ok((items, k)) => Result::Ok((ValueV::List(items), k)),
                        Result::Err(e) => Result::Err(e),
                    }
                } else if is_bare_name(l.key) {
                    match spec_record(lines, width, j, depth) {
                        Result::Ok((fields, k)) => if unique_names(fields) {
                            Result::Ok((ValueV::Record(fields), k))
                        } else {
                            Result::Err(Error::Syntax)
                        },
                        Result::Err(e) => Result::Err(e),
                    }
                } else {
                    match spec_dict(lines, width, j, depth) {
                        Result::Ok((pairs, k)) => if unique_keys(pairs) {
                            Result::Ok((ValueV::Dictionary(pairs), k))
                        } else {
                            Result::Err(Error::Syntax)
                        },
                        Result::Err(e) => Result::Err(e),
                    }
                }
            },
        }
    }
}

#[via_fn]
proof fn spec_block_dec(lines: Seq<Seq<char>>, width: int, i: int, depth: int) {
    if 0 <= i <= lines.len() {
        lemma_next_struct(lines, width, i);
    }
}

/// Decodes consecutive list items at `depth`, from the structural line
/// at or after `i` on, stopping at a shallower line, a line of another
/// kind, or the end.
pub open spec fn spec_list(lines: Seq<Seq<char>>, width: int, i: int, depth: int)
    -> Result<(Seq<ValueV>, int), Error>
    decreases lines.len() - i, 0int,
    via spec_list_dec
{
    let j = next_struct(lines, width, i);
    if j >= lines.len() {
        Result::Ok((Seq::empty(), j))
    } else {
        match classify(lines[j], width) {
            ClassV::Fail(e) => Result::Err(e),
            ClassV::Skip => Result::Ok((Seq::empty(), j)),
            ClassV::Ln(l) => {
                if l.depth < depth {
                    Result::Ok((Seq::empty(), j))
                } else if l.depth > depth {
                    Result::Err(Error::Depth)
                } else if !(l.kind is ListItem) {
                    Result::Ok((Seq::empty(), j))
                } else {
                    match spec_entry_value(lines, width, j + 1, depth, l.kind, l.payload) {
                        Result::Ok((v, k)) => {
                            let k2 = clamp_pos(k, j + 1, lines.len() as int);
                            match spec_list(lines, width, k2, depth) {
                                Result::Ok((rest, m)) => Result::Ok((seq![v] + rest, m)),
                                Result::Err(e) => Result::Err(e),
                            }
                        },
                        Result::Err(e) => Result::Err(e),
                    }
                }
            },
        }
    }
}

#[via_fn]
proof fn spec_list_dec(lines: Seq<Seq<char>>, width: int, i: int, depth: int) {
    if 0 <= i <= lines.len() {
        lemma_next_struct(lines, width, i);
    }
}

/// Decodes consecutive record fields at `depth`: pairs and bare keys,
/// their raw keys unescaped into field names.
pub open spec fn spec_record(lines: Seq<Seq<char>>, width: int, i: int, depth: int)
    -> Result<(Seq<(Seq<char>, ValueV)>, int), Error>
    decreases lines.len() - i, 0int,
    via spec_record_dec
{
    let j = next_struct(lines, width, i);
    if j >= lines.len() {
        Result::Ok((Seq::empty(), j))
    } else {
        match classify(lines[j], width) {
            ClassV::Fail(e) => Result::Err(e),
            ClassV::Skip => Result::Ok((Seq::empty(), j)),
            ClassV::Ln(l) => {
                if l.depth < depth {
                    Result::Ok((Seq::empty(), j))
                } else if l.depth > depth {
                    Result::Err(Error::Depth)
                } else if l.kind is ListItem {
                    Result::Ok((Seq::empty(), j))
                } else if !text_wf(l.key) {
                    Result::Err(Error::Scalar)
                } else {
                    match spec_entry_value(lines, width, j + 1, depth, l.kind, l.payload) {
                        Result::Ok((v, k)) => {
                            let k2 = clamp_pos(k, j + 1, lines.len() as int);
                            match spec_record(lines, width, k2, depth) {
                                Result::Ok((rest, m)) => Result::Ok(
                                    (seq![(unescape(l.key), v)] + rest, m)),
                                Result::Err(e) => Result::Err(e),
                            }
                        },
                        Result::Err(e) => Result::Err(e),
                    }
                }
            },
        }
    }
}

#[via_fn]
proof fn spec_record_dec(lines: Seq<Seq<char>>, width: int, i: int, depth: int) {
    if 0 <= i <= lines.len() {
        lemma_next_struct(lines, width, i);
    }
}

/// Decodes consecutive dictionary entries at `depth`: each key is
/// itself a decoded value.
pub open spec fn spec_dict(lines: Seq<Seq<char>>, width: int, i: int, depth: int)
    -> Result<(Seq<(ValueV, ValueV)>, int), Error>
    decreases lines.len() - i, 0int,
    via spec_dict_dec
{
    let j = next_struct(lines, width, i);
    if j >= lines.len() {
        Result::Ok((Seq::empty(), j))
    } else {
        match classify(lines[j], width) {
            ClassV::Fail(e) => Result::Err(e),
            ClassV::Skip => Result::Ok((Seq::empty(), j)),
            ClassV::Ln(l) => {
                if l.depth < depth {
                    Result::Ok((Seq::empty(), j))
                } else if l.depth > depth {
                    Result::Err(Error::Depth)
                } else if l.kind is ListItem {
                    Result::Ok((Seq::empty(), j))
                } else {
                    match any_of(l.key) {
                        Result::Err(e) => Result::Err(e),
                        Result::Ok(kv) => match spec_entry_value(
                            lines, width, j + 1, depth, l.kind, l.payload) {
                            Result::Ok((v, k)) => {
                                let k2 = clamp_pos(k, j + 1, lines.len() as int);
                                match spec_dict(lines, width, k2, depth) {
                                    Result::Ok((rest, m)) => Result::Ok(
                                        (seq![(kv, v)] + rest, m)),
                                    Result::Err(e) => Result::Err(e),
                                }
                            },
                            Result::Err(e) => Result::Err(e),
                        },
                    }
                }
            },
        }
    }
}

#[via_fn]
proof fn spec_dict_dec(lines: Seq<Seq<char>>, width: int, i: int, depth: int) {
    if 0 <= i <= lines.len() {
        lemma_next_struct(lines, width, i);
    }
}

/// The value of one entry whose line at `depth` was consumed, `i` being
/// the cursor after it. An inline payload decodes under the fixed
/// priority, and a nested block under it is refused; without a payload
/// the value is the nested block at `depth + 1`, or, for a pair only,
/// an absent optional value when no block follows.
pub open spec fn spec_entry_value(lines: Seq<Seq<char>>, width: int, i: int, depth: int,
    kind: LineKind, payload: Option<Seq<char>>) -> Result<(ValueV, int), Error>
    decreases lines.len() - i, 4int,
    via spec_entry_value_dec
{
    let j = next_struct(lines, width, i);
    match payload {
        Option::Some(p) => {
            if j < lines.len() {
                match classify(lines[j], width) {
                    ClassV::Fail(e) => Result::Err(e),
                    ClassV::Skip => Result::Err(Error::Depth),
                    ClassV::Ln(l) => {
                        if l.depth > depth {
                            Result::Err(Error::Depth)
                        } else {
                            match any_of(p) {
                                Result::Ok(v) => Result::Ok((v, i)),
                                Result::Err(e) => Result::Err(e),
                            }
                        }
                    },
                }
            } else {
                match any_of(p) {
                    Result::Ok(v) => Result::Ok((v, i)),
                    Result::Err(e) => Result::Err(e),
                }
            }
        },
        Option::None => {
            if j >= lines.len() {
                if kind is Pair {
                    Result::Ok((ValueV::Optional(Option::None), i))
                } else {
                    Result::Err(Error::Depth)
                }
            } else {
                match classify(lines[j], width) {
                    ClassV::Fail(e) => Result::Err(e),
                    ClassV::Skip => Result::Err(Error::Depth),
                    ClassV::Ln(l) => {
                        if l.depth <= depth {
                            if kind is Pair {
                                Result::Ok((ValueV::Optional(Option::None), i))
                            } else {
                                Result::Err(Error::Depth)
                            }
                        } else if l.depth == depth + 1 {
                            spec_block(lines, width, j, depth + 1)
                        } else {
                            Result::Err(Error::Depth)
                        }
                    },
                }
            }
        },
    }
}

#[via_fn]
proof fn spec_entry_value_dec(lines: Seq<Seq<char>>, width: int, i: int, depth: int,
    kind: LineKind, payload: Option<Seq<char>>) {
    if 0 <= i <= lines.len() {
        lemma_next_struct(lines, width, i);
    }
}

/// The width a document decodes under: the detected unit, defaulting to
/// two spaces for a flat document.
pub open spec fn doc_width(text: Seq<char>) -> int {
    match spec_indentation(text) {
        Option::Some(w) => w as int,
        Option::None => 2,
    }
}

/// The next top-level entry from cursor `pos` on: nothing at the end of
/// the document, or one named value, or the error that ends the
/// sequence.
pub open spec fn spec_next_out(lines: Seq<Seq<char>>, width: int, pos: int)
    -> Option<Result<(Seq<char>, ValueV), Error>> {
    let j = next_struct(lines, width, pos);
    if j >= lines.len() {
        Option::None
    } else {
        match classify(lines[j], width) {
            ClassV::Fail(e) => Option::Some(Result::Err(e)),
            ClassV::Skip => Option::None,
            ClassV::Ln(l) => {
                if l.depth != 0 {
                    Option::Some(Result::Err(Error::Depth))
                } else if l.kind is ListItem {
                    Option::Some(Result::Err(Error::Syntax))
                } else if !text_wf(l.key) {
                    Option::Some(Result::Err(Error::Scalar))
                } else {
                    match spec_entry_value(lines, width, j + 1, 0, l.kind, l.payload) {
                        Result::Ok((v, _k)) => Option::Some(Result::Ok((unescape(l.key), v))),
                        Result::Err(e) => Option::Some(Result::Err(e)),
                    }
                }
            },
        }
    }
}

/// The cursor after producing the next top-level entry.
pub open spec fn spec_next_pos(lines: Seq<Seq<char>>, width: int, pos: int) -> int {
    let j = next_struct(lines, width, pos);
    if j >= lines.len() {
        j
    } else {
        match classify(lines[j], width) {
            ClassV::Fail(e) => j,
            ClassV::Skip => j,
            ClassV::Ln(l) => {
                if l.depth != 0 || l.kind is ListItem || !text_wf(l.key) {
                    j
                } else {
                    match spec_entry_value(lines, width, j + 1, 0, l.kind, l.payload) {
                        Result::Ok((_v, k)) => clamp_pos(k, j + 1, lines.len() as int),
                        Result::Err(e) => j,
                    }
                }
            },
        }
    }
}

/// Law: decoding is deterministic. Equal documents decode to equal
/// outcomes at every cursor: the produced entry and the new cursor are
/// functions of the document text alone.
pub proof fn lemma_decode_deterministic(d1: Seq<char>, d2: Seq<char>, pos: int)
    requires
        d1 == d2,
    ensures
        spec_next_out(split_lines(d1), doc_width(d1), pos)
            == spec_next_out(split_lines(d2), doc_width(d2), pos),
        spec_next_pos(split_lines(d1), doc_width(d1), pos)
            == spec_next_pos(split_lines(d2), doc_width(d2), pos),
{
}


// ---------------------------------------------------------------------
// The structural decode, executed
// ---------------------------------------------------------------------

/// Finds the first structural line at or after `i`.
#[verifier::loop_isolation(false)]
fn next_struct_exec(lines: &Vec<Vec<char>>, width: u8, i: usize) -> (r: usize)
    requires
        width >= 1,
        i <= lines@.len(),
    ensures
        r as int == next_struct(crate::line::lines_view(lines@), width as int, i as int),
        i <= r <= lines@.len(),
{
    let ghost lv = crate::line::lines_view(lines@);
    let n = lines.len();
    let mut j: usize = i;
    while j < n
        invariant
            i <= j <= n,
            next_struct(lv, width as int, i as int) == next_struct(lv, width as int, j as int),
        decreases n - j,
    {
        proof {
            assert(lv[j as int] == lines@[j as int]@);
        }
        match classify_exec(&lines[j], width) {
            ClassRes::Skip => {
                j = j + 1;
            },
            ClassRes::Ln(_l) => {
                return j;
            },
            ClassRes::Fail(_e) => {
                return j;
            },
        }
    }
    j
}

/// Detection yields only the units 2, 3 and 4.
proof fn lemma_detect_range(lines: Seq<Seq<char>>, i: int, limit: int)
    ensures
        crate::line::detect_from(lines, i, limit) matches Option::Some(w) ==> 2 <= w <= 4,
    decreases limit - i,
{
    if 0 <= i && i < limit && i < lines.len() {
        lemma_detect_range(lines, i + 1, limit);
    }
}

/// Decodes the nested block at `depth` starting at the first structural
/// line at or after `i`.
fn block_exec(lines: &Vec<Vec<char>>, width: u8, i: usize, depth: usize)
    -> (r: Result<(Value, usize), Error>)
    requires
        width >= 1,
        i <= lines@.len(),
    ensures
        r matches Ok(p) ==> spec_block(crate::line::lines_view(lines@), width as int,
            i as int, depth as int) == Result::<(ValueV, int), Error>::Ok((p.0@, p.1 as int))
            && i <= p.1 <= lines@.len(),
        r matches Err(e) ==> spec_block(crate::line::lines_view(lines@), width as int,
            i as int, depth as int) == Result::<(ValueV, int), Error>::Err(e),
    decreases lines@.len() - i, 3int,
{
    let ghost lv = crate::line::lines_view(lines@);
    let n = lines.len();
    let j = next_struct_exec(lines, width, i);
    if j >= n {
        return Err(Error::Depth);
    }
    proof {
        assert(lv[j as int] == lines@[j as int]@);
    }
    match classify_exec(&lines[j], width) {
        ClassRes::Fail(e) => Err(e),
        ClassRes::Skip => {
            proof {
                lemma_next_struct(lv, width as int, i as int);
                assert(false);
            }
            Err(Error::Depth)
        },
        ClassRes::Ln(l) => {
            if l.depth != depth {
                return Err(Error::Depth);
            }
            match l.kind {
                LineKind::ListItem => {
                    match list_exec(lines, width, j, depth) {
                        Ok((items, k)) => {
                            proof {
                                lemma_items_view(items@);
                            }
                            Ok((Value::List(items), k))
                        },
                        Err(e) => Err(e),
                    }
                },
                _ => {
                    if is_bare_name_exec(&l.key) {
                        match record_exec(lines, width, j, depth) {
                            Ok((fields, k)) => {
                                if unique_names_exec(&fields) {
                                    Ok((Value::Record(fields), k))
                                } else {
                                    Err(Error::Syntax)
                                }
                            },
                            Err(e) => Err(e),
                        }
                    } else {
                        match dict_exec(lines, width, j, depth) {
                            Ok((pairs, k)) => {
                                proof {
                                    lemma_spec_dict_scalar(lv, width as int, j as int,
                                        depth as int);
                                    lemma_pairs_view(pairs@);
                                    assert(forall|x: int| 0 <= x < pairs@.len()
                                        ==> is_scalar_v(
                                        (#[trigger] pairs_view(pairs@)[x]).0));
                                }
                                if unique_keys_exec(&pairs) {
                                    Ok((Value::Dictionary(pairs), k))
                                } else {
                                    Err(Error::Syntax)
                                }
                            },
                            Err(e) => Err(e),
                        }
                    }
                },
            }
        },
    }
}

/// Decodes consecutive list items at `depth`.
fn list_exec(lines: &Vec<Vec<char>>, width: u8, i: usize, depth: usize)
    -> (r: Result<(Vec<Value>, usize), Error>)
    requires
        width >= 1,
        i <= lines@.len(),
    ensures
        r matches Ok(p) ==> spec_list(crate::line::lines_view(lines@), width as int,
            i as int, depth as int) == Result::<(Seq<ValueV>, int), Error>::Ok(
            (items_view(p.0@), p.1 as int)) && i <= p.1 <= lines@.len(),
        r matches Err(e) ==> spec_list(crate::line::lines_view(lines@), width as int,
            i as int, depth as int) == Result::<(Seq<ValueV>, int), Error>::Err(e),
    decreases lines@.len() - i, 0int,
{
    let ghost lv = crate::line::lines_view(lines@);
    let n = lines.len();
    let j = next_struct_exec(lines, width, i);
    if j >= n {
        proof {
            assert(items_view(Seq::<Value>::empty()) =~= Seq::<ValueV>::empty());
        }
        return Ok((Vec::new(), j));
    }
    proof {
        assert(lv[j as int] == lines@[j as int]@);
    }
    match classify_exec(&lines[j], width) {
        ClassRes::Fail(e) => Err(e),
        ClassRes::Skip => {
            proof {
                lemma_next_struct(lv, width as int, i as int);
                assert(false);
            }
            Err(Error::Depth)
        },
        ClassRes::Ln(l) => {
            if l.depth < depth {
                proof {
                    assert(items_view(Seq::<Value>::empty()) =~= Seq::<ValueV>::empty());
                }
                return Ok((Vec::new(), j));
            }
            if l.depth > depth {
                return Err(Error::Depth);
            }
            match l.kind {
                LineKind::ListItem => {},
                _ => {
                    proof {
                        assert(items_view(Seq::<Value>::empty()) =~= Seq::<ValueV>::empty());
                    }
                    return Ok((Vec::new(), j));
                },
            }
            match entry_value_exec(lines, width, j + 1, depth, &l) {
                Err(e) => Err(e),
                Ok((v, k)) => {
                    let k2: usize = if k < j + 1 {
                        j + 1
                    } else if k > n {
                        n
                    } else {
                        k
                    };
                    match list_exec(lines, width, k2, depth) {
                        Err(e) => Err(e),
                        Ok((rest, m)) => {
                            let ghost restv = rest@;
                            let mut out: Vec<Value> = Vec::new();
                            out.push(v);
                            let ghost out1 = out@;
                            let mut rest2 = rest;
                            out.append(&mut rest2);
                            proof {
                                assert(out@ == out1 + restv);
                                lemma_items_view(out@);
                                lemma_items_view(out1);
                                lemma_items_view(restv);
                                assert(items_view(out1) =~= seq![value_view(out1[0])]);
                                assert(items_view(out@) =~= items_view(out1)
                                    + items_view(restv));
                            }
                            Ok((out, m))
                        },
                    }
                },
            }
        },
    }
}


/// Decodes the value of one consumed entry line; `i` is the cursor
/// after that line.
fn entry_value_exec(lines: &Vec<Vec<char>>, width: u8, i: usize, depth: usize, l: &Line)
    -> (r: Result<(Value, usize), Error>)
    requires
        width >= 1,
        i <= lines@.len(),
    ensures
        r matches Ok(p) ==> spec_entry_value(crate::line::lines_view(lines@), width as int,
            i as int, depth as int, l@.kind, l@.payload)
            == Result::<(ValueV, int), Error>::Ok((p.0@, p.1 as int))
            && i <= p.1 <= lines@.len(),
        r matches Err(e) ==> spec_entry_value(crate::line::lines_view(lines@), width as int,
            i as int, depth as int, l@.kind, l@.payload)
            == Result::<(ValueV, int), Error>::Err(e),
    decreases lines@.len() - i, 4int,
{
    let ghost lv = crate::line::lines_view(lines@);
    let n = lines.len();
    let j = next_struct_exec(lines, width, i);
    match l.payload {
        Some(ref p) => {
            if j < n {
                proof {
                    assert(lv[j as int] == lines@[j as int]@);
                }
                match classify_exec(&lines[j], width) {
                    ClassRes::Fail(e) => {
                        return Err(e);
                    },
                    ClassRes::Skip => {
                        proof {
                            lemma_next_struct(lv, width as int, i as int);
                            assert(false);
                        }
                        return Err(Error::Depth);
                    },
                    ClassRes::Ln(l2) => {
                        if l2.depth > depth {
                            return Err(Error::Depth);
                        }
                    },
                }
            }
            match decode_any_chars(p) {
                Ok(v) => Ok((v, i)),
                Err(e) => Err(e),
            }
        },
        None => {
            if j >= n {
                match l.kind {
                    LineKind::Pair => Ok((Value::Optional(None), i)),
                    _ => Err(Error::Depth),
                }
            } else {
                proof {
                    assert(lv[j as int] == lines@[j as int]@);
                }
                match classify_exec(&lines[j], width) {
                    ClassRes::Fail(e) => Err(e),
                    ClassRes::Skip => {
                        proof {
                            lemma_next_struct(lv, width as int, i as int);
                            assert(false);
                        }
                        Err(Error::Depth)
                    },
                    ClassRes::Ln(l2) => {
                        if l2.depth <= depth {
                            match l.kind {
                                LineKind::Pair => Ok((Value::Optional(None), i)),
                                _ => Err(Error::Depth),
                            }
                        } else if l2.depth - depth == 1 {
                            block_exec(lines, width, j, depth + 1)
                        } else {
                            Err(Error::Depth)
                        }
                    },
                }
            }
        },
    }
}

/// Decodes consecutive record fields at `depth`.
fn record_exec(lines: &Vec<Vec<char>>, width: u8, i: usize, depth: usize)
    -> (r: Result<(Vec<(String, Value)>, usize), Error>)
    requires
        width >= 1,
        i <= lines@.len(),
    ensures
        r matches Ok(p) ==> spec_record(crate::line::lines_view(lines@), width as int,
            i as int, depth as int) == Result::<(Seq<(Seq<char>, ValueV)>, int), Error>::Ok(
            (fields_view(p.0@), p.1 as int)) && i <= p.1 <= lines@.len(),
        r matches Err(e) ==> spec_record(crate::line::lines_view(lines@), width as int,
            i as int, depth as int)
            == Result::<(Seq<(Seq<char>, ValueV)>, int), Error>::Err(e),
    decreases lines@.len() - i, 0int,
{
    let ghost lv = crate::line::lines_view(lines@);
    let n = lines.len();
    let j = next_struct_exec(lines, width, i);
    if j >= n {
        proof {
            assert(fields_view(Seq::<(String, Value)>::empty())
                =~= Seq::<(Seq<char>, ValueV)>::empty());
        }
        return Ok((Vec::new(), j));
    }
    proof {
        assert(lv[j as int] == lines@[j as int]@);
    }
    match classify_exec(&lines[j], width) {
        ClassRes::Fail(e) => Err(e),
        ClassRes::Skip => {
            proof {
                lemma_next_struct(lv, width as int, i as int);
                assert(false);
            }
            Err(Error::Depth)
        },
        ClassRes::Ln(l) => {
            if l.depth < depth {
                proof {
                    assert(fields_view(Seq::<(String, Value)>::empty())
                        =~= Seq::<(Seq<char>, ValueV)>::empty());
                }
                return Ok((Vec::new(), j));
            }
            if l.depth > depth {
                return Err(Error::Depth);
            }
            match l.kind {
                LineKind::ListItem => {
                    proof {
                        assert(fields_view(Seq::<(String, Value)>::empty())
                            =~= Seq::<(Seq<char>, ValueV)>::empty());
                    }
                    return Ok((Vec::new(), j));
                },
                _ => {},
            }
            let name_chars = match unescape_chars(&l.key) {
                Some(u) => u,
                None => {
                    return Err(Error::Scalar);
                },
            };
            match entry_value_exec(lines, width, j + 1, depth, &l) {
                Err(e) => Err(e),
                Ok((v, k)) => {
                    let k2: usize = if k < j + 1 {
                        j + 1
                    } else if k > n {
                        n
                    } else {
                        k
                    };
                    match record_exec(lines, width, k2, depth) {
                        Err(e) => Err(e),
                        Ok((rest, m)) => {
                            let name = chars_to_string(&name_chars);
                            let ghost restv = rest@;
                            let mut out: Vec<(String, Value)> = Vec::new();
                            out.push((name, v));
                            let ghost out1 = out@;
                            let mut rest2 = rest;
                            out.append(&mut rest2);
                            proof {
                                assert(out@ == out1 + restv);
                                lemma_fields_view(out@);
                                lemma_fields_view(out1);
                                lemma_fields_view(restv);
                                assert(fields_view(out1)
                                    =~= seq![(out1[0].0@, value_view(out1[0].1))]);
                                assert(fields_view(out@) =~= fields_view(out1)
                                    + fields_view(restv));
                            }
                            Ok((out, m))
                        },
                    }
                },
            }
        },
    }
}

/// Decodes consecutive dictionary entries at `depth`.
fn dict_exec(lines: &Vec<Vec<char>>, width: u8, i: usize, depth: usize)
    -> (r: Result<(Vec<(Value, Value)>, usize), Error>)
    requires
        width >= 1,
        i <= lines@.len(),
    ensures
        r matches Ok(p) ==> spec_dict(crate::line::lines_view(lines@), width as int,
            i as int, depth as int) == Result::<(Seq<(ValueV, ValueV)>, int), Error>::Ok(
            (pairs_view(p.0@), p.1 as int)) && i <= p.1 <= lines@.len(),
        r matches Err(e) ==> spec_dict(crate::line::lines_view(lines@), width as int,
            i as int, depth as int) == Result::<(Seq<(ValueV, ValueV)>, int), Error>::Err(e),
    decreases lines@.len() - i, 0int,
{
    let ghost lv = crate::line::lines_view(lines@);
    let n = lines.len();
    let j = next_struct_exec(lines, width, i);
    if j >= n {
        proof {
            assert(pairs_view(Seq::<(Value, Value)>::empty())
                =~= Seq::<(ValueV, ValueV)>::empty());
        }
        return Ok((Vec::new(), j));
    }
    proof {
        assert(lv[j as int] == lines@[j as int]@);
    }
    match classify_exec(&lines[j], width) {
        ClassRes::Fail(e) => Err(e),
        ClassRes::Skip => {
            proof {
                lemma_next_struct(lv, width as int, i as int);
                assert(false);
            }
            Err(Error::Depth)
        },
        ClassRes::Ln(l) => {
            if l.depth < depth {
                proof {
                    assert(pairs_view(Seq::<(Value, Value)>::empty())
                        =~= Seq::<(ValueV, ValueV)>::empty());
                }
                return Ok((Vec::new(), j));
            }
            if l.depth > depth {
                return Err(Error::Depth);
            }
            match l.kind {
                LineKind::ListItem => {
                    proof {
                        assert(pairs_view(Seq::<(Value, Value)>::empty())
                            =~= Seq::<(ValueV, ValueV)>::empty());
                    }
                    return Ok((Vec::new(), j));
                },
                _ => {},
            }
            let kv = match decode_any_chars(&l.key) {
                Ok(kv) => kv,
                Err(e) => {
                    return Err(e);
                },
            };
            match entry_value_exec(lines, width, j + 1, depth, &l) {
                Err(e) => Err(e),
                Ok((v, k)) => {
                    let k2: usize = if k < j + 1 {
                        j + 1
                    } else if k > n {
                        n
                    } else {
                        k
                    };
                    match dict_exec(lines, width, k2, depth) {
                        Err(e) => Err(e),
                        Ok((rest, m)) => {
                            let ghost restv = rest@;
                            let mut out: Vec<(Value, Value)> = Vec::new();
                            out.push((kv, v));
                            let ghost out1 = out@;
                            let mut rest2 = rest;
                            out.append(&mut rest2);
                            proof {
                                assert(out@ == out1 + restv);
                                lemma_pairs_view(out@);
                                lemma_pairs_view(out1);
                                lemma_pairs_view(restv);
                                assert(pairs_view(out1) =~= seq![(value_view(out1[0].0),
                                    value_view(out1[0].1))]);
                                assert(pairs_view(out@) =~= pairs_view(out1)
                                    + pairs_view(restv));
                            }
                            Ok((out, m))
                        },
                    }
                },
            }
        },
    }
}

/// Every key of a decoded dictionary block is a scalar.
proof fn lemma_spec_dict_scalar(lines: Seq<Seq<char>>, width: int, i: int, depth: int)
    ensures
        spec_dict(lines, width, i, depth) matches Result::Ok(p) ==> forall|x: int|
            0 <= x < p.0.len() ==> is_scalar_v((#[trigger] p.0[x]).0),
    decreases
            if 0 <= i && i <= lines.len() { lines.len() - i } else { 0 },
{
    if 0 <= i <= lines.len() {
        lemma_next_struct(lines, width, i);
        let j = next_struct(lines, width, i);
        if j < lines.len() {
            match classify(lines[j], width) {
                ClassV::Ln(l) => {
                    if l.depth == depth && !(l.kind is ListItem) {
                        match any_of(l.key) {
                            Result::Ok(kv) => match spec_entry_value(
                                lines, width, j + 1, depth, l.kind, l.payload) {
                                Result::Ok((v, k)) => {
                                    let k2 = clamp_pos(k, j + 1, lines.len() as int);
                                    lemma_spec_dict_scalar(lines, width, k2, depth);
                                },
                                Result::Err(_e) => {},
                            },
                            Result::Err(_e) => {},
                        }
                    }
                },
                _ => {},
            }
        }
    }
}

/// Checks the bare-name grammar.
#[verifier::loop_isolation(false)]
fn is_bare_name_exec(k: &Vec<char>) -> (r: bool)
    ensures
        r == is_bare_name(k@),
{
    let n = k.len();
    if n == 0 {
        return false;
    }
    let u0 = k[0] as u32;
    if 48 <= u0 && u0 <= 57 {
        return false;
    }
    let mut i: usize = 0;
    while i < n
        invariant
            i <= n,
            forall|x: int| 0 <= x < i ==> is_name_char(#[trigger] k@[x]),
        decreases n - i,
    {
        let c = k[i];
        let u = c as u32;
        if !((97 <= u && u <= 122) || (65 <= u && u <= 90) || (48 <= u && u <= 57)
            || c == '_') {
            proof {
                assert(!is_name_char(k@[i as int]));
            }
            return false;
        }
        i = i + 1;
    }
    true
}

// ---------------------------------------------------------------------
// Key equality and uniqueness
// ---------------------------------------------------------------------

/// `v` is a scalar: what the fixed-priority decode can yield.
pub open spec fn is_scalar_v(v: ValueV) -> bool {
    v is Text || v is Bool || v is Int || v is Number || v is DateTime || v is Date
        || v is Time
}

/// The fixed-priority decode yields scalars only.
pub proof fn lemma_any_of_scalar(s: Seq<char>)
    ensures
        any_of(s) matches Result::Ok(v) ==> is_scalar_v(v),
{
}

/// Compares two limb vectors.
#[verifier::loop_isolation(false)]
fn limbs_eq(a: &Vec<i64>, b: &Vec<i64>) -> (r: bool)
    ensures
        r == (a@.map_values(|l: i64| l as int) == b@.map_values(|l: i64| l as int)),
{
    let ghost am = a@.map_values(|l: i64| l as int);
    let ghost bm = b@.map_values(|l: i64| l as int);
    if a.len() != b.len() {
        proof {
            assert(am.len() != bm.len());
        }
        return false;
    }
    let n = a.len();
    let mut i: usize = 0;
    while i < n
        invariant
            i <= n,
            forall|x: int| 0 <= x < i ==> a@[x] == b@[x],
        decreases n - i,
    {
        if a[i] != b[i] {
            proof {
                assert(am[i as int] != bm[i as int]);
            }
            return false;
        }
        i = i + 1;
    }
    proof {
        assert(am =~= bm);
    }
    true
}

/// Compares two integers for value-and-representation equality.
fn int_eq(a: &Int, b: &Int) -> (r: bool)
    ensures
        r == (a@ == b@),
{
    match (a, b) {
        (Int::ByteS(x), Int::ByteS(y)) => *x == *y,
        (Int::ByteU(x), Int::ByteU(y)) => *x == *y,
        (Int::HalfS(x), Int::HalfS(y)) => *x == *y,
        (Int::HalfU(x), Int::HalfU(y)) => *x == *y,
        (Int::WordS(x), Int::WordS(y)) => *x == *y,
        (Int::WordU(x), Int::WordU(y)) => *x == *y,
        (Int::LongS(x), Int::LongS(y)) => *x == *y,
        (Int::LongU(x), Int::LongU(y)) => *x == *y,
        (Int::Big(x), Int::Big(y)) => limbs_eq(x, y),
        _ => false,
    }
}

/// Compares two scalar values by value equality: texts by their
/// characters, numbers and the calendar kinds by their literal text,
/// integers by width and value.
pub fn scalar_key_eq(a: &Value, b: &Value) -> (r: bool)
    requires
        is_scalar_v(a@),
        is_scalar_v(b@),
    ensures
        r == (a@ == b@),
{
    match (a, b) {
        (Value::Text(x), Value::Text(y)) => x.eq(y),
        (Value::Bool(x), Value::Bool(y)) => *x == *y,
        (Value::Int(x), Value::Int(y)) => int_eq(x, y),
        (Value::Number(x), Value::Number(y)) => x.eq(y),
        (Value::Date(x), Value::Date(y)) => x.0.eq(&y.0),
        (Value::Time(x), Value::Time(y)) => x.0.eq(&y.0),
        (Value::DateTime(x), Value::DateTime(y)) => {
            let de = x.0.0.eq(&y.0.0);
            let te = x.1.0.eq(&y.1.0);
            de && te
        },
        _ => false,
    }
}

/// Checks that record field names are pairwise distinct.
#[verifier::loop_isolation(false)]
fn unique_names_exec(fields: &Vec<(String, Value)>) -> (r: bool)
    ensures
        r == unique_names(fields_view(fields@)),
{
    proof {
        lemma_fields_view(fields@);
    }
    let ghost fv = fields_view(fields@);
    let n = fields.len();
    let mut i: usize = 1;
    while i < n
        invariant
            1 <= i <= n || n == 0,
            forall|x: int, y: int| 0 <= x < y < i ==> (#[trigger] fv[x]).0
                != (#[trigger] fv[y]).0,
        decreases n - i,
    {
        let mut j: usize = 0;
        while j < i
            invariant
                j <= i < n,
                forall|x: int| 0 <= x < j ==> (#[trigger] fv[x]).0 != fv[i as int].0,
            decreases i - j,
        {
            if fields[j].0 == fields[i].0 {
                proof {
                    assert(fv[j as int].0 == fv[i as int].0);
                }
                return false;
            }
            j = j + 1;
        }
        i = i + 1;
    }
    true
}

/// Checks that dictionary keys are pairwise distinct by value equality.
#[verifier::loop_isolation(false)]
fn unique_keys_exec(pairs: &Vec<(Value, Value)>) -> (r: bool)
    requires
        forall|x: int| 0 <= x < pairs@.len()
            ==> is_scalar_v((#[trigger] pairs_view(pairs@)[x]).0),
    ensures
        r == unique_keys(pairs_view(pairs@)),
{
    proof {
        lemma_pairs_view(pairs@);
    }
    let ghost pv = pairs_view(pairs@);
    let n = pairs.len();
    let mut i: usize = 1;
    while i < n
        invariant
            1 <= i <= n || n == 0,
            forall|x: int, y: int| 0 <= x < y < i ==> (#[trigger] pv[x]).0
                != (#[trigger] pv[y]).0,
        decreases n - i,
    {
        let mut j: usize = 0;
        while j < i
            invariant
                j <= i < n,
                forall|x: int| 0 <= x < j ==> (#[trigger] pv[x]).0 != pv[i as int].0,
            decreases i - j,
    {
            proof {
                assert(is_scalar_v(pv[j as int].0) && is_scalar_v(pv[i as int].0));
                assert(pairs@[j as int].0@ == pv[j as int].0);
                assert(pairs@[i as int].0@ == pv[i as int].0);
            }
            if scalar_key_eq(&pairs[j].0, &pairs[i].0) {
                return false;
            }
            j = j + 1;
        }
        i = i + 1;
    }
    true
}

// ---------------------------------------------------------------------
// The document parser
// ---------------------------------------------------------------------

/// Mathematical mirror of [`Parser`].
pub struct ParserV {
    /// The document's physical lines.
    pub lines: Seq<Seq<char>>,
    /// The indentation unit in force.
    pub width: int,
    /// The cursor: index of the first line not yet consumed.
    pub pos: int,
    /// The sequence has yielded an error and is exhausted.
    pub failed: bool,
}

/// A lazy, forward-only, single-pass reader of a document's top-level
/// named values. Once an error has been produced the sequence is
/// exhausted; a fresh parser must be made to read again.
pub struct Parser {
    pub(crate) lines: Vec<Vec<char>>,
    pub(crate) width: u8,
    pub(crate) pos: usize,
    pub(crate) failed: bool,
}

impl View for Parser {
    type V = ParserV;

    open(crate) spec fn view(&self) -> ParserV {
        ParserV {
            lines: crate::line::lines_view(self.lines@),
            width: self.width as int,
            pos: self.pos as int,
            failed: self.failed,
        }
    }
}

impl Parser {
    /// The indentation unit is positive and the cursor stays within the
    /// document.
    #[verifier::type_invariant]
    spec fn type_inv(self) -> bool {
        1 <= self.width && self.pos <= self.lines@.len()
    }

    /// Makes a parser over a document's text: splits it into lines and
    /// detects the indentation unit once, defaulting to two spaces for
    /// a flat document.
    pub fn new(data: &str) -> (r: Result<Parser, Error>)
        ensures
            r matches Ok(p) && p@.lines == split_lines(data@) && p@.width == doc_width(data@)
                && p@.pos == 0 && p@.failed == false,
    {
        let v = str_to_chars(data);
        let lines = split_lines_chars(&v);
        let width: u8 = match detect_exec(&lines) {
            Some(w) => w,
            None => 2,
        };
        proof {
            lemma_detect_range(crate::line::lines_view(lines@), 0, 1024);
        }
        Ok(Parser { lines, width, pos: 0, failed: false })
    }

    /// Produces the next top-level named value, or nothing at the end
    /// of the document, or the error that exhausts the sequence. After
    /// an error every further call reports exhaustion.
    pub fn next(&mut self) -> (r: Option<Result<(String, Value), Error>>)
        ensures
            final(self)@.lines == old(self)@.lines,
            final(self)@.width == old(self)@.width,
            old(self)@.failed ==> r is None && final(self)@ == old(self)@,
            !old(self)@.failed ==> final(self)@.pos == spec_next_pos(old(self)@.lines,
                old(self)@.width, old(self)@.pos),
            !old(self)@.failed ==> (match spec_next_out(old(self)@.lines, old(self)@.width,
                old(self)@.pos) {
                Option::None => r is None && !final(self)@.failed,
                Option::Some(Result::Ok((name, vv))) => (r matches Some(rr)
                    && rr matches Ok(p) && p.0@ == name && p.1@ == vv)
                    && !final(self)@.failed,
                Option::Some(Result::Err(e)) => (r matches Some(rr)
                    && rr matches Err(e2) && e2 == e) && final(self)@.failed,
            }),
    {
        proof {
            use_type_invariant(&*self);
        }
        if self.failed {
            return None;
        }
        let n = self.lines.len();
        let j = next_struct_exec(&self.lines, self.width, self.pos);
        if j >= n {
            self.pos = j;
            return None;
        }
        proof {
            assert(crate::line::lines_view(self.lines@)[j as int] == self.lines@[j as int]@);
        }
        let cres = classify_exec(&self.lines[j], self.width);
        match cres {
            ClassRes::Fail(e) => {
                self.failed = true;
                self.pos = j;
                Some(Err(e))
            },
            ClassRes::Skip => {
                proof {
                    lemma_next_struct(crate::line::lines_view(self.lines@),
                        self.width as int, self.pos as int);
                    assert(false);
                }
                None
            },
            ClassRes::Ln(l) => {
                if l.depth != 0 {
                    self.failed = true;
                    self.pos = j;
                    return Some(Err(Error::Depth));
                }
                match l.kind {
                    LineKind::ListItem => {
                        self.failed = true;
                        self.pos = j;
                        return Some(Err(Error::Syntax));
                    },
                    _ => {},
                }
                let name_chars = match unescape_chars(&l.key) {
                    Some(u) => u,
                    None => {
                        self.failed = true;
                        self.pos = j;
                        return Some(Err(Error::Scalar));
                    },
                };
                match entry_value_exec(&self.lines, self.width, j + 1, 0, &l) {
                    Ok((v, k)) => {
                        let k2: usize = if k < j + 1 {
                            j + 1
                        } else if k > n {
                            n
                        } else {
                            k
                        };
                        self.pos = k2;
                        Some(Ok((chars_to_string(&name_chars), v)))
                    },
                    Err(e) => {
                        self.failed = true;
                        self.pos = j;
                        Some(Err(e))
                    },
                }
            },
        }
    }
}

} // verus!
