//! The line extractor: walks a log line left to right in ascending
//! ordinal order, resolving each field's effective delimiters, skipping
//! to the preceding one, capturing the value up to the terminating one,
//! and advancing past the field. All-or-nothing per line: a missing
//! delimiter fails the whole parse.

use vstd::prelude::*;
use vstd::string::StrSliceExecFns;
use crate::format::FieldModel;
use crate::format::FormatModel;
use crate::format::LogFormat;
use crate::text::spec_find;
use crate::text::lemma_find_at_characterize;
use crate::scan::spec_until_seperator;
use crate::scan::until_delimiter;
use crate::scan::until_seperator;
use crate::scan::get_delimited;
use crate::record::ExtractedRecord;
use crate::record::pairs_view;
use crate::record::pairs_map;
use crate::record::lemma_pairs_map_found;
use crate::text::contains_at;
use crate::text::lemma_find_prefix;
use crate::text::lemma_find_char_at;
use crate::text::lemma_find_after_value;
use crate::text::lemma_find_first_at;

verus! {

/// Extraction failure: a required delimiter could not be located in the
/// remaining input.
#[derive(Debug, Clone, Copy, PartialEq, Eq)]
pub enum LineError {
    MalformedLine,
}

/// The delimiter required before a field's value: the declared one if
/// any, else the separator for every field but the first, else nothing.
pub open spec fn effective_preceded_by(f: FieldModel, sep: Seq<char>) -> Seq<char> {
    if f.preceded_by.len() > 0 {
        f.preceded_by
    } else if f.ordinal != 0 {
        sep
    } else {
        Seq::empty()
    }
}

/// The delimiter required after a field's value: the declared one if
/// any, else the separator for every field but the last, else nothing.
pub open spec fn effective_terminated_by(f: FieldModel, n: int, sep: Seq<char>) -> Seq<char> {
    if f.terminated_by.len() > 0 {
        f.terminated_by
    } else if f.ordinal != n - 1 {
        sep
    } else {
        Seq::empty()
    }
}

/// One field's extraction step on the unconsumed suffix `rem`: skip to
/// the effective preceding delimiter `pb`, consume it, capture up to the
/// effective terminator `tb` (to the end of the line when `tb` is
/// empty), and, when `advance` holds, move on to the next separator.
/// Yields the captured value and the new suffix, or `None` when a
/// required delimiter is missing.
pub open spec fn spec_extract_field(
    rem: Seq<char>,
    pb: Seq<char>,
    tb: Seq<char>,
    advance: bool,
    sep: Seq<char>,
) -> Option<(Seq<char>, Seq<char>)> {
    match spec_find(rem, pb) {
        None => None,
        Some(i) => {
            let rem1 = rem.subrange(i + pb.len(), rem.len() as int);
            let captured = if tb.len() == 0 {
                Some((rem1, Seq::<char>::empty()))
            } else {
                match spec_find(rem1, tb) {
                    None => None,
                    Some(j) => Some(
                        (rem1.subrange(0, j), rem1.subrange(j, rem1.len() as int)),
                    ),
                }
            };
            match captured {
                None => None,
                Some(p) => {
                    if advance {
                        match spec_until_seperator(p.1, sep) {
                            None => None,
                            Some(q) => Some((p.0, q.0)),
                        }
                    } else {
                        Some(p)
                    }
                },
            }
        },
    }
}

/// The `(name, value)` pairs extracted for the fields `fields[k..]` from
/// the unconsumed suffix `rem`, or `None` as soon as one field's
/// required delimiter is missing.
pub open spec fn spec_extract_from(
    fields: Seq<FieldModel>,
    sep: Seq<char>,
    rem: Seq<char>,
    k: int,
) -> Option<Seq<(Seq<char>, Seq<char>)>>
    decreases fields.len() - k,
{
    if k < 0 || k >= fields.len() {
        Some(Seq::empty())
    } else {
        let f = fields[k];
        let pb = effective_preceded_by(f, sep);
        let tb = effective_terminated_by(f, fields.len() as int, sep);
        let advance = f.ordinal != fields.len() - 1;
        match spec_extract_field(rem, pb, tb, advance, sep) {
            None => None,
            Some(p) => match spec_extract_from(fields, sep, p.1, k + 1) {
                None => None,
                Some(rest) => Some(seq![(f.name, p.0)] + rest),
            },
        }
    }
}

/// The full extraction of `line` against the schema.
pub open spec fn spec_extract(fm: FormatModel, line: Seq<char>) -> Option<
    Seq<(Seq<char>, Seq<char>)>,
> {
    spec_extract_from(fm.fields, fm.seperator, line, 0)
}

/// A successful extraction yields one pair per remaining field, in field
/// order, each keyed by its field's name.
pub proof fn lemma_extract_shape(fields: Seq<FieldModel>, sep: Seq<char>, rem: Seq<char>, k: int)
    requires
        0 <= k <= fields.len(),
        spec_extract_from(fields, sep, rem, k) is Some,
    ensures
        ({
            let t = spec_extract_from(fields, sep, rem, k)->0;
            &&& t.len() == fields.len() - k
            &&& forall|j: int|
                k <= j < fields.len() ==> (#[trigger] t[j - k]).0 == fields[j].name
        }),
    decreases fields.len() - k,
{
    if k < fields.len() {
        let f = fields[k];
        let pb = effective_preceded_by(f, sep);
        let tb = effective_terminated_by(f, fields.len() as int, sep);
        let advance = f.ordinal != fields.len() - 1;
        let p = spec_extract_field(rem, pb, tb, advance, sep)->0;
        lemma_extract_shape(fields, sep, p.1, k + 1);
        let rest = spec_extract_from(fields, sep, p.1, k + 1)->0;
        let t = spec_extract_from(fields, sep, rem, k)->0;
        assert(t == seq![(f.name, p.0)] + rest);
        assert forall|j: int|
            k <= j < fields.len() implies (#[trigger] t[j - k]).0 == fields[j].name by {
            if j == k {
                assert(t[0] == (f.name, p.0));
            } else {
                assert((rest[j - (k + 1)]).0 == fields[j].name);
                assert(t[j - k] == rest[j - k - 1]);
            }
        }
    }
}

/// Apply a compiled schema to one log line: walk the line left to right
/// and slice out each field's value between its effective delimiters.
/// Returns the full record, or `MalformedLine` exactly when some
/// required delimiter cannot be located; no partial record is returned.
pub fn parse(log_format: LogFormat, log_string: &str) -> (r: Result<ExtractedRecord, LineError>)
    ensures
        match r {
            Ok(rec) => {
                &&& spec_extract(log_format@, log_string@) == Some(rec@)
                &&& rec@.len() == log_format@.fields.len()
                &&& forall|j: int|
                    0 <= j < rec@.len() ==> (#[trigger] rec@[j]).0 == log_format@.fields[j].name
            },
            Err(_) => spec_extract(log_format@, log_string@) is None,
        },
{
    let ghost fm = log_format@;
    let fields_len = log_format.fields.len();
    let seperator: &str = log_format.seperator.as_str();
    let mut remainder: &str = log_string;
    let mut pairs: Vec<(String, String)> = Vec::new();
    let mut k: usize = 0;
    while k < fields_len
        invariant
            fm == log_format@,
            fields_len == fm.fields.len(),
            k <= fields_len,
            seperator@ == fm.seperator,
            pairs_view(pairs@).len() == k,
            match spec_extract_from(fm.fields, fm.seperator, log_string@, 0) {
                Some(all) => spec_extract_from(fm.fields, fm.seperator, remainder@, k as int)
                    is Some && all == pairs_view(pairs@) + spec_extract_from(
                    fm.fields,
                    fm.seperator,
                    remainder@,
                    k as int,
                )->0,
                None => spec_extract_from(fm.fields, fm.seperator, remainder@, k as int) is None,
            },
        decreases fields_len - k,
    {
        let field = &log_format.fields[k];
        let ghost fmodel = fm.fields[k as int];
        let ghost pb_spec = effective_preceded_by(fmodel, fm.seperator);
        let ghost tb_spec = effective_terminated_by(fmodel, fm.fields.len() as int, fm.seperator);
        let ghost advance_spec = fmodel.ordinal != fm.fields.len() - 1;
        let preceded_by: &str = if !field.preceded_by.as_str().is_empty() {
            field.preceded_by.as_str()
        } else if field.ordinal != 0 {
            seperator
        } else {
            ""
        };
        let terminated_by: &str = if !field.terminated_by.as_str().is_empty() {
            field.terminated_by.as_str()
        } else if (field.ordinal as usize) != fields_len - 1 {
            seperator
        } else {
            ""
        };
        let advance = (field.ordinal as usize) != fields_len - 1;
        proof {
            reveal_strlit("");
            assert(""@ =~= Seq::<char>::empty());
            assert(preceded_by@ == pb_spec);
            assert(terminated_by@ == tb_spec);
            assert(advance == advance_spec);
        }
        let rem_a: &str;
        match until_delimiter(remainder, preceded_by) {
            Some(p) => {
                rem_a = p.0;
            },
            None => {
                proof {
                    assert(spec_extract_field(remainder@, pb_spec, tb_spec, advance_spec,
                        fm.seperator) is None);
                }
                return Err(LineError::MalformedLine);
            },
        }
        let ghost i = spec_find(remainder@, preceded_by@)->0;
        let ghost rem1 = remainder@.subrange(i + pb_spec.len(), remainder@.len() as int);
        proof {
            lemma_find_at_characterize(remainder@, preceded_by@, 0);
            assert(rem_a@ == remainder@.subrange(i, remainder@.len() as int));
            assert(rem_a@.subrange(0, pb_spec.len() as int) =~= remainder@.subrange(
                i,
                i + pb_spec.len(),
            ));
            assert(rem_a@.subrange(pb_spec.len() as int, rem_a@.len() as int) =~= rem1);
        }
        let value: &str;
        let rem_b: &str;
        if terminated_by.is_empty() {
            let la = rem_a.unicode_len();
            let pl = preceded_by.unicode_len();
            value = rem_a.substring_char(pl, la);
            rem_b = rem_a.substring_char(la, la);
            proof {
                assert(value@ == rem1);
                assert(rem_b@ =~= Seq::<char>::empty());
            }
        } else {
            match get_delimited(rem_a, preceded_by, terminated_by) {
                Some(p) => {
                    rem_b = p.0;
                    value = p.1;
                },
                None => {
                    proof {
                        assert(spec_extract_field(remainder@, pb_spec, tb_spec, advance_spec,
                            fm.seperator) is None);
                    }
                    return Err(LineError::MalformedLine);
                },
            }
        }
        let ghost captured = (value@, rem_b@);
        proof {
            assert(spec_extract_field(remainder@, pb_spec, tb_spec, advance_spec, fm.seperator)
                == (if advance_spec {
                match spec_until_seperator(rem_b@, fm.seperator) {
                    None => None::<(Seq<char>, Seq<char>)>,
                    Some(q) => Some((value@, q.0)),
                }
            } else {
                Some(captured)
            }));
        }
        if advance {
            match until_seperator(rem_b, seperator) {
                Some(p) => {
                    remainder = p.0;
                },
                None => {
                    return Err(LineError::MalformedLine);
                },
            }
        } else {
            remainder = rem_b;
        }
        let name = field.name.clone();
        let owned_value = value.to_owned();
        let ghost old_pairs = pairs@;
        pairs.push((name, owned_value));
        proof {
            assert(pairs_view(pairs@) =~= pairs_view(old_pairs) + seq![
                (fmodel.name, captured.0),
            ]);
            let rest = spec_extract_from(fm.fields, fm.seperator, remainder@, k as int + 1);
            if spec_extract_from(fm.fields, fm.seperator, log_string@, 0) is Some {
                let all = spec_extract_from(fm.fields, fm.seperator, log_string@, 0)->0;
                assert(all == pairs_view(old_pairs) + (seq![(fmodel.name, captured.0)]
                    + rest->0));
                assert(pairs_view(old_pairs) + (seq![(fmodel.name, captured.0)] + rest->0)
                    =~= pairs_view(pairs@) + rest->0);
            }
        }
        k = k + 1;
    }
    let rec = ExtractedRecord { pairs };
    proof {
        assert(spec_extract_from(fm.fields, fm.seperator, remainder@, k as int) == Some(
            Seq::<(Seq<char>, Seq<char>)>::empty(),
        ));
        if spec_extract_from(fm.fields, fm.seperator, log_string@, 0) is Some {
            assert(pairs_view(pairs@) + Seq::<(Seq<char>, Seq<char>)>::empty() =~= pairs_view(
                pairs@,
            ));
        }
        lemma_extract_shape(fm.fields, fm.seperator, log_string@, 0);
        let t = spec_extract_from(fm.fields, fm.seperator, log_string@, 0)->0;
        assert forall|j: int|
            0 <= j < rec@.len() implies (#[trigger] rec@[j]).0 == fm.fields[j].name by {
            assert(t[j - 0].0 == fm.fields[j].name);
        }
    }
    Ok(rec)
}

/// Law (boundaries): the first field gets no forced leading separator
/// and the last no forced trailing one, while a delimiter a field
/// declares is used exactly as declared.
pub proof fn lemma_boundary_fields(f: FieldModel, n: int, sep: Seq<char>)
    ensures
        f.ordinal == 0 && f.preceded_by.len() == 0 ==> effective_preceded_by(f, sep)
            == Seq::<char>::empty(),
        f.ordinal == n - 1 && f.terminated_by.len() == 0 ==> effective_terminated_by(f, n, sep)
            == Seq::<char>::empty(),
        f.preceded_by.len() > 0 ==> effective_preceded_by(f, sep) == f.preceded_by,
        f.terminated_by.len() > 0 ==> effective_terminated_by(f, n, sep) == f.terminated_by,
{
}

/// The text of one rendered segment: the field's declared delimiters
/// around its literal value.
pub open spec fn render_segment(f: FieldModel, value: Seq<char>) -> Seq<char> {
    f.preceded_by + value + f.terminated_by
}

/// The line rendered from the fields `fields[k..]` and their values:
/// the segments joined by the separator.
pub open spec fn render_from(
    fields: Seq<FieldModel>,
    sep: Seq<char>,
    values: Seq<Seq<char>>,
    k: int,
) -> Seq<char>
    decreases fields.len() - k,
{
    if k < 0 || k >= fields.len() {
        Seq::empty()
    } else if k == fields.len() - 1 {
        render_segment(fields[k], values[k])
    } else {
        render_segment(fields[k], values[k]) + sep + render_from(fields, sep, values, k + 1)
    }
}

/// `pat` neither occurs inside `v` nor straddles the boundary where
/// `pat` itself follows `v`.
pub open spec fn no_early_occurrence(v: Seq<char>, pat: Seq<char>) -> bool {
    forall|p: int| 0 <= p < v.len() ==> !contains_at(v + pat, pat, p)
}

/// The `(name, value)` pairs a faithful round trip recovers.
pub open spec fn expected_pairs(fields: Seq<FieldModel>, values: Seq<Seq<char>>) -> Seq<
    (Seq<char>, Seq<char>),
> {
    Seq::new(fields.len(), |j: int| (fields[j].name, values[j]))
}

/// The side conditions under which a rendered line parses back exactly:
/// one value per field; a non-empty separator; ordinals contiguous in
/// field order; delimiters of at most one character, as compilation
/// produces them; no declared preceding delimiter drawn from the
/// separator's characters; no declared terminator of a non-final field
/// equal to the separator's first character; and no value holding an
/// early occurrence of its effective terminator.
pub open spec fn round_trip_ok(
    fields: Seq<FieldModel>,
    sep: Seq<char>,
    values: Seq<Seq<char>>,
) -> bool {
    let n = fields.len() as int;
    &&& values.len() == fields.len()
    &&& sep.len() > 0
    &&& forall|k: int| 0 <= k < n ==> (#[trigger] fields[k]).ordinal == k
    &&& forall|k: int|
        0 <= k < n ==> (#[trigger] fields[k]).preceded_by.len() <= 1
            && fields[k].terminated_by.len() <= 1
    &&& forall|k: int|
        0 <= k < n && (#[trigger] fields[k]).preceded_by.len() == 1 ==> !sep.contains(
            fields[k].preceded_by[0],
        )
    &&& forall|k: int|
        0 <= k < n - 1 && (#[trigger] fields[k]).terminated_by.len() == 1
            ==> fields[k].terminated_by[0] != sep[0]
    &&& forall|k: int|
        0 <= k < n && effective_terminated_by(#[trigger] fields[k], n, sep).len() > 0
            ==> no_early_occurrence(values[k], effective_terminated_by(fields[k], n, sep))
}

/// What the extractor sees on reaching field `k` of a rendered line:
/// the whole line for the first field, from the separator before
/// segment `k` on for every later one.
pub open spec fn entry_text(
    fields: Seq<FieldModel>,
    sep: Seq<char>,
    values: Seq<Seq<char>>,
    k: int,
) -> Seq<char> {
    if k == 0 {
        render_from(fields, sep, values, 0)
    } else {
        sep + render_from(fields, sep, values, k)
    }
}

/// Extraction of a rendered line recovers, from field `k` on, exactly
/// the rendered values in order.
#[verifier::rlimit(100)]
#[verifier::spinoff_prover]
proof fn lemma_round_trip_from(
    fields: Seq<FieldModel>,
    sep: Seq<char>,
    values: Seq<Seq<char>>,
    k: int,
)
    requires
        round_trip_ok(fields, sep, values),
        0 <= k < fields.len(),
    ensures
        spec_extract_from(fields, sep, entry_text(fields, sep, values, k), k) == Some(
            expected_pairs(fields, values).subrange(k, fields.len() as int),
        ),
    decreases fields.len() - k,
{
    let n = fields.len() as int;
    let f = fields[k];
    let v = values[k];
    let pre: Seq<char> = if k == 0 {
        Seq::empty()
    } else {
        sep
    };
    let tail: Seq<char> = if k < n - 1 {
        sep + render_from(fields, sep, values, k + 1)
    } else {
        Seq::empty()
    };
    let rem = entry_text(fields, sep, values, k);
    assert(rem =~= pre + f.preceded_by + v + f.terminated_by + tail);
    let pb = effective_preceded_by(f, sep);
    let tb = effective_terminated_by(f, n, sep);
    let advance = f.ordinal != n - 1;
    let cut = pre.len() + f.preceded_by.len();
    // Step one: the preceding delimiter is found exactly where rendered.
    if f.preceded_by.len() == 1 {
        assert(rem[pre.len() as int] == f.preceded_by[0]);
        assert forall|p: int| 0 <= p < pre.len() implies rem[p] != pb[0] by {
            assert(rem[p] == sep[p]);
            if rem[p] == pb[0] {
                assert(sep.contains(pb[0]));
            }
        }
        lemma_find_char_at(rem, pb, pre.len() as int);
        assert(spec_find(rem, pb) == Some(pre.len() as int));
    } else if k == 0 {
        assert(rem.subrange(0, 0) =~= pb);
        lemma_find_prefix(rem, pb);
        assert(spec_find(rem, pb) == Some(0int));
    } else {
        assert(pb == sep);
        assert(rem.subrange(0, sep.len() as int) =~= sep);
        lemma_find_prefix(rem, pb);
        assert(spec_find(rem, pb) == Some(0int));
    }
    let i0 = spec_find(rem, pb)->0;
    assert(i0 + pb.len() == cut);
    let rem1 = rem.subrange(i0 + pb.len(), rem.len() as int);
    assert(rem1 =~= v + f.terminated_by + tail);
    // Step two: the terminator is found right after the value.
    if tb.len() == 0 {
        // Only the last field can lack an effective terminator: it
        // captures to the end of the line.
        assert(f.ordinal == n - 1 && f.terminated_by.len() == 0);
        assert(k == n - 1);
        assert(rem1 =~= v);
        assert(spec_extract_field(rem, pb, tb, advance, sep) == Some(
            (rem1, Seq::<char>::empty()),
        ));
        assert(spec_extract_from(fields, sep, Seq::<char>::empty(), k + 1) == Some(Seq::<(
            Seq<char>,
            Seq<char>,
        )>::empty()));
        assert(spec_extract_from(fields, sep, rem, k) == Some(seq![(f.name, rem1)] + Seq::<(
            Seq<char>,
            Seq<char>,
        )>::empty()));
        assert(seq![(f.name, rem1)] + Seq::<(Seq<char>, Seq<char>)>::empty() =~= expected_pairs(
            fields,
            values,
        ).subrange(k, n));
    } else {
        let rest2: Seq<char> = if k < n - 1 {
            if f.terminated_by.len() == 1 {
                tail
            } else {
                render_from(fields, sep, values, k + 1)
            }
        } else {
            Seq::empty()
        };
        assert(rem1 =~= v + tb + rest2);
        assert(no_early_occurrence(v, tb));
        lemma_find_after_value(v, tb, rest2);
        assert(spec_find(rem1, tb) == Some(v.len() as int));
        let value = rem1.subrange(0, v.len() as int);
        let rem2 = rem1.subrange(v.len() as int, rem1.len() as int);
        assert(value =~= v);
        assert(rem2 =~= tb + rest2);
        if k == n - 1 {
            assert(!advance);
            assert(spec_extract_field(rem, pb, tb, advance, sep) == Some((value, rem2)));
            assert(spec_extract_from(fields, sep, rem2, k + 1) == Some(Seq::<(
                Seq<char>,
                Seq<char>,
            )>::empty()));
            assert(spec_extract_from(fields, sep, rem, k) == Some(seq![(f.name, value)] + Seq::<(
                Seq<char>,
                Seq<char>,
            )>::empty()));
            assert(seq![(f.name, value)] + Seq::<(Seq<char>, Seq<char>)>::empty()
                =~= expected_pairs(fields, values).subrange(k, n));
        } else {
            assert(advance);
            let next_entry = entry_text(fields, sep, values, k + 1);
            if f.terminated_by.len() == 1 {
                // The terminator itself still stands before the joining
                // separator.
                assert(rem2 =~= tb + sep + render_from(fields, sep, values, k + 1));
                assert(rem2.subrange(1, 1 + sep.len() as int) =~= sep);
                assert(contains_at(rem2, sep, 1));
                assert forall|p: int| 0 <= p < 1 implies !contains_at(rem2, sep, p) by {
                    if contains_at(rem2, sep, 0) {
                        assert(rem2.subrange(0, sep.len() as int)[0] == rem2[0]);
                        assert(f.terminated_by[0] == sep[0]);
                    }
                }
                lemma_find_first_at(rem2, sep, 1);
                assert(spec_find(rem2, sep) == Some(1int));
                assert(rem2.subrange(1, rem2.len() as int) =~= next_entry);
                assert(spec_until_seperator(rem2, sep) matches Some(q) && q.0 == next_entry);
            } else {
                assert(rem2 =~= sep + render_from(fields, sep, values, k + 1));
                assert(rem2.subrange(0, sep.len() as int) =~= sep);
                lemma_find_prefix(rem2, sep);
                assert(spec_find(rem2, sep) == Some(0int));
                assert(rem2.subrange(0, rem2.len() as int) =~= next_entry);
                assert(spec_until_seperator(rem2, sep) matches Some(q) && q.0 == next_entry);
            }
            assert(spec_extract_field(rem, pb, tb, advance, sep) == Some((value, next_entry)));
            lemma_round_trip_from(fields, sep, values, k + 1);
            assert(spec_extract_from(fields, sep, rem, k) == Some(seq![(f.name, value)]
                + expected_pairs(fields, values).subrange(k + 1, n)));
            assert(seq![(f.name, value)] + expected_pairs(fields, values).subrange(k + 1, n)
                =~= expected_pairs(fields, values).subrange(k, n));
        }
    }
}

/// Law (round trip): a line rendered by joining literal field values
/// with a schema's declared delimiters and separator parses back, under
/// the [`round_trip_ok`] side conditions, to exactly those values in
/// field order, each keyed by its field's name.
pub proof fn lemma_round_trip(fields: Seq<FieldModel>, sep: Seq<char>, values: Seq<Seq<char>>)
    requires
        round_trip_ok(fields, sep, values),
    ensures
        spec_extract_from(fields, sep, render_from(fields, sep, values, 0), 0) == Some(
            expected_pairs(fields, values),
        ),
{
    if fields.len() == 0 {
        assert(expected_pairs(fields, values) =~= Seq::<(Seq<char>, Seq<char>)>::empty());
    } else {
        lemma_round_trip_from(fields, sep, values, 0);
        assert(expected_pairs(fields, values).subrange(0, fields.len() as int) =~= expected_pairs(
            fields,
            values,
        ));
    }
}

/// Law (round trip, keyed): with pairwise-distinct field names, the
/// round-tripped record's mapping holds exactly each rendered value
/// under its field's name.
pub proof fn lemma_round_trip_lookup(fields: Seq<FieldModel>, sep: Seq<char>, values: Seq<Seq<char>>)
    requires
        round_trip_ok(fields, sep, values),
        forall|a: int, b: int|
            0 <= a < b < fields.len() ==> (#[trigger] fields[a]).name != (#[trigger] fields[b]).name,
    ensures
        ({
            let r = spec_extract_from(fields, sep, render_from(fields, sep, values, 0), 0);
            &&& r is Some
            &&& forall|j: int|
                0 <= j < fields.len() ==> pairs_map(r->0).contains_key(
                    (#[trigger] fields[j]).name,
                ) && pairs_map(r->0)[fields[j].name] == values[j]
        }),
{
    lemma_round_trip(fields, sep, values);
    let t = expected_pairs(fields, values);
    assert forall|j: int|
        0 <= j < fields.len() implies pairs_map(t).contains_key((#[trigger] fields[j]).name)
            && pairs_map(t)[fields[j].name] == values[j] by {
        assert forall|l: int| j < l < t.len() implies (#[trigger] t[l]).0 != fields[j].name by {
            assert(fields[j].name != fields[l].name);
        }
        lemma_pairs_map_found(t, j, fields[j].name);
    }
}

} // verus!
