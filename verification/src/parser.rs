//! The catalog parser: turns the raw bytes of a semicolon-delimited,
//! comment-bearing locale database into a sequence of [`LocaleRecord`]s.
//!
//! The format is line-oriented. Blank lines and lines whose first
//! non-whitespace byte is `#` are ignored. Every other line is a data line
//! and must hold at least seven `;`-separated fields; the fields at
//! positions 1, 3 and 6 are the English name, the display name and the
//! locale code. A data line with fewer fields makes the whole catalog
//! malformed, while a retained field that is not valid UTF-8 only drops
//! that one record.

use crate::CatalogError;
use crate::LocaleRecord;
use crate::RecView;
use vstd::prelude::*;
use vstd::utf8::decode_utf8;
use vstd::utf8::valid_utf8;

verus! {

/// Splits a byte sequence at every occurrence of `sep`. The result always
/// has one more piece than there are separators; pieces may be empty.
pub open spec fn spec_split(s: Seq<u8>, sep: u8) -> Seq<Seq<u8>>
    decreases s.len(),
{
    if s.len() == 0 {
        seq![Seq::<u8>::empty()]
    } else if s[0] == sep {
        seq![Seq::<u8>::empty()] + spec_split(s.drop_first(), sep)
    } else {
        let rest = spec_split(s.drop_first(), sep);
        seq![seq![s[0]] + rest[0]] + rest.drop_first()
    }
}

pub proof fn lemma_split_nonempty(s: Seq<u8>, sep: u8)
    ensures
        spec_split(s, sep).len() >= 1,
    decreases s.len(),
{
    if s.len() > 0 {
        lemma_split_nonempty(s.drop_first(), sep);
    }
}

/// Splits a byte slice at every occurrence of `sep`, per [`spec_split`].
pub fn split_bytes(input: &[u8], sep: u8) -> (r: Vec<Vec<u8>>)
    ensures
        r.deep_view() == spec_split(input@, sep),
{
    let mut pieces: Vec<Vec<u8>> = Vec::new();
    let mut cur: Vec<u8> = Vec::new();
    let mut i: usize = 0;
    proof {
        assert(input@.skip(0) =~= input@);
        lemma_split_nonempty(input@, sep);
        let rest = spec_split(input@.skip(0), sep);
        assert(pieces.deep_view() + seq![cur@ + rest[0]] + rest.drop_first() =~~= spec_split(
            input@,
            sep,
        ));
    }
    while i < input.len()
        invariant
            i <= input@.len(),
            ({
                let rest = spec_split(input@.skip(i as int), sep);
                spec_split(input@, sep) == pieces.deep_view() + seq![cur@ + rest[0]]
                    + rest.drop_first()
            }),
        decreases input@.len() - i,
    {
        let ghost s = input@;
        let ghost rest_i = spec_split(s.skip(i as int), sep);
        let ghost rest_i1 = spec_split(s.skip(i as int + 1), sep);
        proof {
            assert(s.skip(i as int).len() > 0);
            assert(s.skip(i as int)[0] == s[i as int]);
            assert(s.skip(i as int).drop_first() =~= s.skip(i as int + 1));
            lemma_split_nonempty(s.skip(i as int + 1), sep);
        }
        let b = input[i];
        if b == sep {
            proof {
                assert(rest_i =~~= seq![Seq::<u8>::empty()] + rest_i1);
            }
            let ghost old_pieces = pieces.deep_view();
            let ghost old_cur = cur@;
            pieces.push(cur);
            cur = Vec::new();
            proof {
                assert(pieces.deep_view() =~~= old_pieces.push(old_cur));
                assert(old_cur + rest_i[0] =~= old_cur);
                assert(pieces.deep_view() + seq![cur@ + rest_i1[0]] + rest_i1.drop_first()
                    =~~= old_pieces + seq![old_cur + rest_i[0]] + rest_i.drop_first());
            }
        } else {
            proof {
                assert(rest_i =~~= seq![seq![s[i as int]] + rest_i1[0]] + rest_i1.drop_first());
            }
            let ghost old_cur = cur@;
            cur.push(b);
            proof {
                assert(cur@ + rest_i1[0] =~= old_cur + rest_i[0]);
                assert(pieces.deep_view() + seq![cur@ + rest_i1[0]] + rest_i1.drop_first()
                    =~~= pieces.deep_view() + seq![old_cur + rest_i[0]] + rest_i.drop_first());
            }
        }
        i = i + 1;
    }
    proof {
        let rest = spec_split(input@.skip(i as int), sep);
        assert(input@.skip(i as int) =~= Seq::<u8>::empty());
        assert(rest == seq![Seq::<u8>::empty()]);
        assert(cur@ + rest[0] =~= cur@);
    }
    let ghost old_pieces = pieces.deep_view();
    let ghost old_cur = cur@;
    pieces.push(cur);
    proof {
        assert(pieces.deep_view() =~~= old_pieces.push(old_cur));
        assert(pieces.deep_view() =~~= spec_split(input@, sep));
    }
    pieces
}

/// True for bytes that count as whitespace between records.
pub open spec fn is_ws(b: u8) -> bool {
    b == 32 || b == 9 || b == 13 || b == 10
}

/// True for lines the parser ignores: blank lines and lines whose first
/// non-whitespace byte is `#`.
pub open spec fn spec_skippable(l: Seq<u8>) -> bool
    decreases l.len(),
{
    if l.len() == 0 {
        true
    } else if l[0] == 35 {
        true
    } else if is_ws(l[0]) {
        spec_skippable(l.drop_first())
    } else {
        false
    }
}

fn line_skippable(l: &[u8]) -> (r: bool)
    ensures
        r == spec_skippable(l@),
{
    let mut i: usize = 0;
    proof {
        assert(l@.skip(0) =~= l@);
    }
    while i < l.len()
        invariant
            i <= l@.len(),
            spec_skippable(l@) == spec_skippable(l@.skip(i as int)),
        decreases l@.len() - i,
    {
        proof {
            assert(l@.skip(i as int)[0] == l@[i as int]);
            assert(l@.skip(i as int).drop_first() =~= l@.skip(i as int + 1));
        }
        let b = l[i];
        if b == 35 {
            return true;
        }
        if !(b == 32 || b == 9 || b == 13 || b == 10) {
            return false;
        }
        i = i + 1;
    }
    true
}

/// The record a well-shaped data line yields, or `None` when one of the
/// three retained fields is not valid UTF-8 and the record is dropped.
pub open spec fn spec_line_record(l: Seq<u8>) -> Option<RecView> {
    let segs = spec_split(l, 59);
    if valid_utf8(segs[1]) && valid_utf8(segs[3]) && valid_utf8(segs[6]) {
        Some((decode_utf8(segs[3]), decode_utf8(segs[6]), decode_utf8(segs[1])))
    } else {
        None
    }
}

/// The records of a sequence of lines, in order; `None` when some data
/// line has fewer than seven fields.
pub open spec fn spec_parse_lines(lines: Seq<Seq<u8>>) -> Option<Seq<RecView>>
    decreases lines.len(),
{
    if lines.len() == 0 {
        Some(Seq::<RecView>::empty())
    } else {
        let l = lines[0];
        let rest = spec_parse_lines(lines.drop_first());
        if spec_skippable(l) {
            rest
        } else if spec_split(l, 59).len() < 7 {
            None
        } else {
            match spec_line_record(l) {
                Some(r) => match rest {
                    Some(rs) => Some(seq![r] + rs),
                    None => None,
                },
                None => rest,
            }
        }
    }
}

/// The catalog a byte buffer parses to: its lines, taken in order.
pub open spec fn spec_parse(input: Seq<u8>) -> Option<Seq<RecView>> {
    spec_parse_lines(spec_split(input, 10))
}

/// A data line with fewer than the required seven fields.
pub open spec fn is_malformed_line(l: Seq<u8>) -> bool {
    !spec_skippable(l) && spec_split(l, 59).len() < 7
}

/// Parsing fails exactly when some line is malformed, no matter how many
/// well-formed lines stand before or after it.
pub proof fn lemma_malformed_iff(lines: Seq<Seq<u8>>)
    ensures
        spec_parse_lines(lines) is None <==> exists|i: int|
            0 <= i < lines.len() && is_malformed_line(#[trigger] lines[i]),
    decreases lines.len(),
{
    if lines.len() > 0 {
        let rest = lines.drop_first();
        lemma_malformed_iff(rest);
        if spec_parse_lines(lines) is None {
            if !is_malformed_line(lines[0]) {
                assert(spec_parse_lines(rest) is None);
                let j = choose|j: int| 0 <= j < rest.len() && is_malformed_line(#[trigger] rest[j]);
                assert(rest[j] == lines[j + 1]);
                assert(is_malformed_line(lines[j + 1]));
            }
        }
        if exists|i: int| 0 <= i < lines.len() && is_malformed_line(#[trigger] lines[i]) {
            let i = choose|i: int| 0 <= i < lines.len() && is_malformed_line(#[trigger] lines[i]);
            if i > 0 {
                assert(rest[i - 1] == lines[i]);
                assert(spec_parse_lines(rest) is None);
            }
            assert(spec_parse_lines(lines) is None);
        }
    }
}

/// A line that contributes no record: a blank or comment line, or a
/// well-shaped data line with a retained field that is not valid UTF-8.
pub open spec fn is_inert_line(l: Seq<u8>) -> bool {
    spec_skippable(l) || (spec_split(l, 59).len() >= 7 && spec_line_record(l) is None)
}

/// Inserting an inert line anywhere leaves the parse unchanged: comment
/// and blank lines are tolerated wherever they stand, and a record whose
/// field fails to decode is dropped without disturbing the others.
pub proof fn lemma_inert_line_ignored(lines: Seq<Seq<u8>>, i: int, l: Seq<u8>)
    requires
        0 <= i <= lines.len(),
        is_inert_line(l),
    ensures
        spec_parse_lines(lines.insert(i, l)) == spec_parse_lines(lines),
    decreases i,
{
    let li = lines.insert(i, l);
    if i == 0 {
        assert(li.drop_first() =~= lines);
        assert(li[0] == l);
    } else {
        assert(li[0] == lines[0]);
        assert(li.drop_first() =~= lines.drop_first().insert(i - 1, l));
        lemma_inert_line_ignored(lines.drop_first(), i - 1, l);
    }
}

/// Stripping every comment and blank line changes nothing: a catalog
/// parses to the same records as its data lines alone.
pub proof fn lemma_skippable_stripped(lines: Seq<Seq<u8>>)
    ensures
        spec_parse_lines(lines) == spec_parse_lines(lines.filter(|l: Seq<u8>| !spec_skippable(l))),
    decreases lines.len(),
{
    let p = |l: Seq<u8>| !spec_skippable(l);
    if lines.len() == 0 {
        reveal(Seq::filter);
    } else {
        let rest = lines.drop_first();
        lemma_skippable_stripped(rest);
        assert(lines =~= seq![lines[0]] + rest);
        rest.lemma_filter_prepend(lines[0], p);
        if spec_skippable(lines[0]) {
            assert(lines.filter(p) =~= rest.filter(p));
        } else {
            let fl = lines.filter(p);
            assert(fl =~= seq![lines[0]] + rest.filter(p));
            assert(fl[0] == lines[0]);
            assert(fl.drop_first() =~= rest.filter(p));
        }
    }
}

/// Relies on `core::str::from_utf8`: it succeeds exactly on valid UTF-8
/// and yields the characters the bytes encode.
#[verifier::external_body]
fn decode_field(bytes: &[u8]) -> (r: Option<String>)
    ensures
        r is Some <==> valid_utf8(bytes@),
        r matches Some(s) ==> s@ == decode_utf8(bytes@),
{
    core::str::from_utf8(bytes).ok().map(|s| s.to_string())
}

/// Parses the raw catalog bytes into records, in catalog order.
///
/// Fails with [`CatalogError::MalformedCatalog`] exactly when some data
/// line has fewer than seven `;`-separated fields; a record whose
/// retained fields are not all valid UTF-8 is silently dropped.
pub fn parse_languagelist(input: &[u8]) -> (r: Result<Vec<LocaleRecord>, CatalogError>)
    ensures
        r matches Ok(v) ==> spec_parse(input@) == Some(v.deep_view()),
        r is Err ==> spec_parse(input@) is None && r == Err::<Vec<LocaleRecord>, CatalogError>(
            CatalogError::MalformedCatalog,
        ),
{
    let lines = split_bytes(input, 10);
    let ghost lv = lines.deep_view();
    let mut out: Vec<LocaleRecord> = Vec::new();
    let mut idx: usize = 0;
    proof {
        assert(lv.skip(0) =~= lv);
    }
    while idx < lines.len()
        invariant
            idx <= lv.len(),
            lv == lines.deep_view(),
            lv == spec_split(input@, 10),
            lines@.len() == lv.len(),
            spec_parse_lines(lv.skip(idx as int)) matches Some(rs) ==> spec_parse(input@) == Some(
                out.deep_view() + rs,
            ),
            spec_parse_lines(lv.skip(idx as int)) is None ==> spec_parse(input@) is None,
        decreases lv.len() - idx,
    {
        proof {
            assert(lv.skip(idx as int).len() > 0);
            assert(lv.skip(idx as int)[0] == lv[idx as int]);
            assert(lv.skip(idx as int).drop_first() =~= lv.skip(idx as int + 1));
            assert(lines@[idx as int].deep_view() == lv[idx as int]);
        }
        let ghost l = lv[idx as int];
        let line = &lines[idx];
        proof {
            assert(line.deep_view() =~= line@);
            assert(l == line@);
        }
        if !line_skippable(line.as_slice()) {
            let segs = split_bytes(line.as_slice(), 59);
            proof {
                assert(segs.deep_view() == spec_split(l, 59));
                assert(segs@.len() == segs.deep_view().len());
            }
            if segs.len() < 7 {
                return Err(CatalogError::MalformedCatalog);
            }
            proof {
                assert(segs@[1]@ =~= segs.deep_view()[1]);
                assert(segs@[3]@ =~= segs.deep_view()[3]);
                assert(segs@[6]@ =~= segs.deep_view()[6]);
            }
            let english = decode_field(segs[1].as_slice());
            let display = decode_field(segs[3].as_slice());
            let code = decode_field(segs[6].as_slice());
            match (display, code, english) {
                (Some(d), Some(c), Some(e)) => {
                    let ghost old_out = out.deep_view();
                    let ghost rec = spec_line_record(l)->Some_0;
                    out.push((d, c, e));
                    proof {
                        assert(out.deep_view() =~~= old_out.push(rec));
                        let tail = spec_parse_lines(lv.skip(idx as int + 1));
                        if tail is Some {
                            let rs = tail->Some_0;
                            assert(out.deep_view() + rs =~~= old_out + (seq![rec] + rs));
                        }
                    }
                },
                _ => {
                    proof {
                        assert(spec_line_record(l) is None);
                    }
                },
            }
        }
        idx = idx + 1;
    }
    proof {
        assert(lv.skip(idx as int) =~= Seq::<Seq<u8>>::empty());
        assert(spec_parse_lines(lv.skip(idx as int)) == Some(Seq::<RecView>::empty()));
        assert(out.deep_view() + Seq::<RecView>::empty() =~~= out.deep_view());
    }
    Ok(out)
}

} // verus!
