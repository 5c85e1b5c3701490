//! The format compiler: parses a template string into an ordered schema
//! of field descriptors. A template is split on the separator; each
//! segment either carries a `$name` placeholder token (its surrounding
//! characters become the field's delimiters) or is positional and gets a
//! synthetic `field<ordinal>` name.

use vstd::prelude::*;
use vstd::string::StrSliceExecFns;
use vstd::string::StringExecFns;
use crate::text::spec_find;
use crate::text::split_on;
use crate::text::remove_all;
use crate::text::spec_decimal;
use crate::text::decimal_digit;
use crate::text::lemma_split_on_len;
use crate::text::lemma_find_at_characterize;
use crate::scan::until_delimiter;

verus! {

/// Compilation failure: the template holds a malformed placeholder
/// (a `$` with no identifier character after it).
#[derive(Debug, Clone, Copy, PartialEq, Eq)]
pub enum TemplateError {
    InvalidTemplate,
}

/// The mathematical model of one field descriptor.
pub ghost struct FieldModel {
    pub ordinal: int,
    pub name: Seq<char>,
    pub preceded_by: Seq<char>,
    pub terminated_by: Seq<char>,
}

/// The mathematical model of a compiled schema.
pub ghost struct FormatModel {
    pub fields: Seq<FieldModel>,
    pub seperator: Seq<char>,
}

impl FormatModel {
    /// Schema invariant: a non-empty separator, and ordinals contiguous
    /// `0..N-1` in field order.
    pub open spec fn wf(self) -> bool {
        &&& self.seperator.len() > 0
        &&& forall|k: int|
            0 <= k < self.fields.len() ==> (#[trigger] self.fields[k].ordinal) == k
    }
}

/// Every delimiter a compiled schema declares is at most one character.
pub open spec fn compiled_delims(fields: Seq<FieldModel>) -> bool {
    forall|k: int|
        0 <= k < fields.len() ==> (#[trigger] fields[k].preceded_by).len() <= 1
            && fields[k].terminated_by.len() <= 1
}

/// A placeholder identifier character: letter, digit, hyphen or
/// underscore.
pub open spec fn is_ident_char(c: char) -> bool {
    ||| 'A' as int <= c as int <= 'Z' as int
    ||| 'a' as int <= c as int <= 'z' as int
    ||| '0' as int <= c as int <= '9' as int
    ||| c == '-'
    ||| c == '_'
}

/// A placeholder token starts at `i`: a `$` followed by at least one
/// identifier character.
pub open spec fn is_token_start(seg: Seq<char>, i: int) -> bool {
    &&& 0 <= i
    &&& i + 1 < seg.len()
    &&& seg[i] == '$'
    &&& is_ident_char(seg[i + 1])
}

/// The position of the leftmost placeholder token at or after `i`.
pub open spec fn token_start_at(seg: Seq<char>, i: int) -> Option<int>
    decreases seg.len() - i,
{
    if i < 0 || i >= seg.len() {
        None
    } else if seg[i] == '$' && i + 1 < seg.len() && is_ident_char(seg[i + 1]) {
        Some(i)
    } else {
        token_start_at(seg, i + 1)
    }
}

/// The end of the identifier run beginning at `j`: the first position at
/// or after `j` holding no identifier character.
pub open spec fn ident_end(seg: Seq<char>, j: int) -> int
    decreases seg.len() - j,
{
    if j < 0 || j >= seg.len() {
        j
    } else if is_ident_char(seg[j]) {
        ident_end(seg, j + 1)
    } else {
        j
    }
}

/// `token_start_at` returns exactly the leftmost token start at or after
/// `start`.
pub proof fn lemma_token_start_characterize(seg: Seq<char>, start: int)
    requires
        0 <= start,
    ensures
        match token_start_at(seg, start) {
            Some(i) => {
                &&& start <= i
                &&& is_token_start(seg, i)
                &&& forall|k: int| start <= k < i ==> !is_token_start(seg, k)
            },
            None => forall|k: int| k >= start ==> !is_token_start(seg, k),
        },
    decreases seg.len() - start,
{
    if start >= seg.len() {
        assert forall|k: int| k >= start implies !is_token_start(seg, k) by {
            assert(k + 1 >= seg.len());
        }
    } else if seg[start] == '$' && start + 1 < seg.len() && is_ident_char(seg[start + 1]) {
    } else {
        lemma_token_start_characterize(seg, start + 1);
        assert(!is_token_start(seg, start));
    }
}

/// The identifier run over `[j, e)` with a non-identifier (or the end)
/// at `e` ends exactly at `e`.
pub proof fn lemma_ident_end_run(seg: Seq<char>, j: int, e: int)
    requires
        0 <= j <= e <= seg.len(),
        forall|k: int| j <= k < e ==> is_ident_char(#[trigger] seg[k]),
        e == seg.len() || !is_ident_char(seg[e]),
    ensures
        ident_end(seg, j) == e,
    decreases e - j,
{
    if j < e {
        lemma_ident_end_run(seg, j + 1, e);
    }
}

/// The characters spelling `field`, the stem of synthetic names.
pub open spec fn field_prefix() -> Seq<char> {
    seq!['f', 'i', 'e', 'l', 'd']
}

/// The synthetic name `field<k>` given to a segment without a
/// placeholder.
pub open spec fn spec_field_name(k: int) -> Seq<char> {
    field_prefix() + spec_decimal(k)
}

/// The descriptor compiled from one template segment, or `None` when the
/// segment holds a `$` but no well-formed placeholder token.
pub open spec fn spec_segment_field(seg: Seq<char>, ordinal: int) -> Option<FieldModel> {
    if !seg.contains('$') {
        Some(
            FieldModel {
                ordinal,
                name: spec_field_name(ordinal),
                preceded_by: Seq::empty(),
                terminated_by: Seq::empty(),
            },
        )
    } else {
        match token_start_at(seg, 0) {
            None => None,
            Some(i) => {
                let e = ident_end(seg, i + 1);
                let name = seg.subrange(i + 1, e);
                let token = seg.subrange(i, e);
                let rem = remove_all(seg, token);
                if rem.len() > 0 {
                    Some(
                        FieldModel {
                            ordinal,
                            name,
                            preceded_by: seq![rem[0]],
                            terminated_by: seq![rem[rem.len() - 1]],
                        },
                    )
                } else {
                    Some(
                        FieldModel {
                            ordinal,
                            name,
                            preceded_by: Seq::empty(),
                            terminated_by: Seq::empty(),
                        },
                    )
                }
            },
        }
    }
}

/// The descriptors compiled from the segments `segs[k..]`, each with its
/// index as ordinal; `None` as soon as one segment is malformed.
pub open spec fn spec_fields_from(segs: Seq<Seq<char>>, k: int) -> Option<Seq<FieldModel>>
    decreases segs.len() - k,
{
    if k < 0 || k >= segs.len() {
        Some(Seq::empty())
    } else {
        match spec_segment_field(segs[k], k) {
            None => None,
            Some(f) => match spec_fields_from(segs, k + 1) {
                None => None,
                Some(rest) => Some(seq![f] + rest),
            },
        }
    }
}

/// The schema compiled from `template` split on `sep`: the ordered field
/// descriptors, or `None` when some segment holds a malformed
/// placeholder.
pub open spec fn spec_compile(template: Seq<char>, sep: Seq<char>) -> Option<Seq<FieldModel>> {
    spec_fields_from(split_on(template, sep), 0)
}

/// Whatever `spec_fields_from` yields covers the remaining segments one
/// to one, with contiguous ordinals.
pub proof fn lemma_fields_from_shape(segs: Seq<Seq<char>>, k: int)
    requires
        0 <= k <= segs.len(),
        spec_fields_from(segs, k) is Some,
    ensures
        ({
            let t = spec_fields_from(segs, k)->0;
            &&& t.len() == segs.len() - k
            &&& forall|j: int|
                k <= j < segs.len() ==> spec_segment_field(segs[j], j) == Some(
                    #[trigger] t[j - k],
                )
        }),
    decreases segs.len() - k,
{
    if k < segs.len() {
        lemma_fields_from_shape(segs, k + 1);
        let f = spec_segment_field(segs[k], k)->0;
        let rest = spec_fields_from(segs, k + 1)->0;
        let t = spec_fields_from(segs, k)->0;
        assert(t == seq![f] + rest);
        assert forall|j: int|
            k <= j < segs.len() implies spec_segment_field(segs[j], j) == Some(
            #[trigger] t[j - k],
        ) by {
            if j == k {
                assert(t[0] == f);
            } else {
                assert(spec_segment_field(segs[j], j) == Some(rest[j - (k + 1)]));
                assert(t[j - k] == rest[j - k - 1]);
            }
        }
    }
}

/// Pointwise compiled segments assemble into the compiled sequence.
pub proof fn lemma_fields_from_pointwise(segs: Seq<Seq<char>>, models: Seq<FieldModel>, k: int)
    requires
        0 <= k <= segs.len(),
        models.len() == segs.len(),
        forall|j: int|
            k <= j < segs.len() ==> spec_segment_field(segs[j], j) == Some(#[trigger] models[j]),
    ensures
        spec_fields_from(segs, k) == Some(models.subrange(k, segs.len() as int)),
    decreases segs.len() - k,
{
    if k >= segs.len() {
        assert(models.subrange(k, segs.len() as int) =~= Seq::empty());
    } else {
        lemma_fields_from_pointwise(segs, models, k + 1);
        assert(seq![models[k]] + models.subrange(k + 1, segs.len() as int) =~= models.subrange(
            k,
            segs.len() as int,
        ));
    }
}

/// A compiled descriptor carries the ordinal it was compiled with, and
/// delimiters of at most one character each.
pub proof fn lemma_segment_field_shape(seg: Seq<char>, k: int)
    requires
        spec_segment_field(seg, k) is Some,
    ensures
        ({
            let f = spec_segment_field(seg, k)->0;
            &&& f.ordinal == k
            &&& f.preceded_by.len() <= 1
            &&& f.terminated_by.len() <= 1
        }),
{
}

/// One malformed segment makes the whole compilation fail.
pub proof fn lemma_fields_from_none(segs: Seq<Seq<char>>, j: int)
    requires
        0 <= j < segs.len(),
        spec_segment_field(segs[j], j) is None,
    ensures
        spec_fields_from(segs, 0) is None,
{
    if spec_fields_from(segs, 0) is Some {
        lemma_fields_from_shape(segs, 0);
        let t = spec_fields_from(segs, 0)->0;
        assert(spec_segment_field(segs[j], j) == Some(t[j - 0]));
        assert(false);
    }
}

/// Whether `c` is a placeholder identifier character.
fn ident_char(c: char) -> (r: bool)
    ensures
        r == is_ident_char(c),
{
    let u = c as u32;
    (('A' as u32) <= u && u <= ('Z' as u32)) || (('a' as u32) <= u && u <= ('z' as u32)) || (('0'
        as u32) <= u && u <= ('9' as u32)) || c == '-' || c == '_'
}

/// Whether the segment holds a dollar sign anywhere.
fn contains_dollar(s: &str) -> (r: bool)
    ensures
        r == s@.contains('$'),
{
    let n = s.unicode_len();
    let mut i: usize = 0;
    while i < n
        invariant
            i <= n,
            n == s@.len(),
            forall|k: int| 0 <= k < i ==> s@[k] != '$',
        decreases n - i,
    {
        if s.get_char(i) == '$' {
            proof {
                assert(s@[i as int] == '$');
            }
            return true;
        }
        i = i + 1;
    }
    proof {
        if s@.contains('$') {
            let w = choose|k: int| 0 <= k < s@.len() && s@[k] == '$';
            assert(s@[w] != '$');
        }
    }
    false
}

/// The leftmost placeholder token of the segment: its start and the end
/// of its identifier run.
fn find_token(s: &str) -> (r: Option<(usize, usize)>)
    ensures
        match r {
            Some(p) => {
                &&& token_start_at(s@, 0) == Some(p.0 as int)
                &&& ident_end(s@, p.0 + 1) == p.1 as int
                &&& p.0 + 1 < p.1 <= s@.len()
            },
            None => token_start_at(s@, 0) is None,
        },
{
    let n = s.unicode_len();
    let mut i: usize = 0;
    while i < n
        invariant
            i <= n,
            n == s@.len(),
            forall|k: int| 0 <= k < i ==> !is_token_start(s@, k),
        decreases n - i,
    {
        if s.get_char(i) == '$' && i + 1 < n {
            if ident_char(s.get_char(i + 1)) {
                proof {
                    lemma_token_start_characterize(s@, 0);
                    if token_start_at(s@, 0) != Some(i as int) {
                        assert(is_token_start(s@, i as int));
                    }
                }
                let mut e: usize = i + 2;
                while e < n && ident_char(s.get_char(e))
                    invariant
                        i + 2 <= e <= n,
                        n == s@.len(),
                        ident_end(s@, i + 1) == ident_end(s@, e as int),
                    decreases n - e,
                {
                    e = e + 1;
                }
                return Some((i, e));
            }
        }
        proof {
            assert(!is_token_start(s@, i as int));
        }
        i = i + 1;
    }
    proof {
        lemma_token_start_characterize(s@, 0);
        if token_start_at(s@, 0) is Some {
            let w = token_start_at(s@, 0)->0;
            assert(!is_token_start(s@, w));
        }
    }
    None
}

/// `s` with every occurrence of `pat` removed.
fn remove_all_exec(s: &str, pat: &str) -> (r: String)
    requires
        pat@.len() > 0,
    ensures
        r@ == remove_all(s@, pat@),
{
    let n = s.unicode_len();
    let m = pat.unicode_len();
    let mut out = String::new();
    let mut chunk_start: usize = 0;
    let mut i: usize = 0;
    proof {
        assert(s@.subrange(0, n as int) =~= s@);
        assert(out@ + s@.subrange(0, 0) =~= Seq::<char>::empty());
    }
    if m <= n {
        while i <= n - m
            invariant
                chunk_start <= i <= n,
                n == s@.len(),
                m == pat@.len(),
                1 <= m <= n,
                remove_all(s@, pat@) == out@ + s@.subrange(chunk_start as int, i as int)
                    + remove_all(s@.subrange(i as int, n as int), pat@),
            decreases n - i,
        {
            let is_match = crate::scan::matches_at(s, i, pat);
            proof {
                let tail = s@.subrange(i as int, n as int);
                assert(tail.subrange(0, m as int) =~= s@.subrange(i as int, i + m));
            }
            if is_match {
                let chunk = s.substring_char(chunk_start, i);
                out.append(chunk);
                proof {
                    let tail = s@.subrange(i as int, n as int);
                    assert(tail.subrange(m as int, tail.len() as int) =~= s@.subrange(
                        i + m,
                        n as int,
                    ));
                    assert(remove_all(tail, pat@) == remove_all(
                        s@.subrange(i + m, n as int),
                        pat@,
                    ));
                    assert(out@ + s@.subrange(i + m, i + m) =~= out@);
                }
                i = i + m;
                chunk_start = i;
            } else {
                proof {
                    let tail = s@.subrange(i as int, n as int);
                    assert(seq![tail[0]] =~= s@.subrange(i as int, i + 1));
                    assert(tail.subrange(1, tail.len() as int) =~= s@.subrange(i + 1, n as int));
                    assert(remove_all(tail, pat@) == s@.subrange(i as int, i + 1) + remove_all(
                        s@.subrange(i + 1, n as int),
                        pat@,
                    ));
                    assert(out@ + s@.subrange(chunk_start as int, i as int) + (s@.subrange(
                        i as int,
                        i + 1,
                    ) + remove_all(s@.subrange(i + 1, n as int), pat@)) =~= out@ + s@.subrange(
                        chunk_start as int,
                        i + 1,
                    ) + remove_all(s@.subrange(i + 1, n as int), pat@));
                }
                i = i + 1;
            }
        }
    }
    let chunk = s.substring_char(chunk_start, n);
    proof {
        assert(remove_all(s@.subrange(i as int, n as int), pat@) == s@.subrange(
            i as int,
            n as int,
        ));
        assert(out@ + s@.subrange(chunk_start as int, i as int) + s@.subrange(i as int, n as int)
            =~= out@ + s@.subrange(chunk_start as int, n as int));
    }
    out.append(chunk);
    out
}

/// The one-character string for the digit `d`.
fn digit_str(d: u32) -> (r: &'static str)
    requires
        d < 10,
    ensures
        r@ == seq![decimal_digit(d as int)],
{
    if d == 0 {
        proof {
            reveal_strlit("0");
            assert("0"@ =~= seq![decimal_digit(0)]);
        }
        "0"
    } else if d == 1 {
        proof {
            reveal_strlit("1");
            assert("1"@ =~= seq![decimal_digit(1)]);
        }
        "1"
    } else if d == 2 {
        proof {
            reveal_strlit("2");
            assert("2"@ =~= seq![decimal_digit(2)]);
        }
        "2"
    } else if d == 3 {
        proof {
            reveal_strlit("3");
            assert("3"@ =~= seq![decimal_digit(3)]);
        }
        "3"
    } else if d == 4 {
        proof {
            reveal_strlit("4");
            assert("4"@ =~= seq![decimal_digit(4)]);
        }
        "4"
    } else if d == 5 {
        proof {
            reveal_strlit("5");
            assert("5"@ =~= seq![decimal_digit(5)]);
        }
        "5"
    } else if d == 6 {
        proof {
            reveal_strlit("6");
            assert("6"@ =~= seq![decimal_digit(6)]);
        }
        "6"
    } else if d == 7 {
        proof {
            reveal_strlit("7");
            assert("7"@ =~= seq![decimal_digit(7)]);
        }
        "7"
    } else if d == 8 {
        proof {
            reveal_strlit("8");
            assert("8"@ =~= seq![decimal_digit(8)]);
        }
        "8"
    } else {
        proof {
            reveal_strlit("9");
            assert("9"@ =~= seq![decimal_digit(9)]);
        }
        "9"
    }
}

/// The decimal rendering of `n`.
fn u32_decimal(n: u32) -> (r: String)
    ensures
        r@ == spec_decimal(n as int),
    decreases n,
{
    if n < 10 {
        let d = digit_str(n);
        d.to_owned()
    } else {
        let mut s = u32_decimal(n / 10);
        s.append(digit_str(n % 10));
        s
    }
}

/// The synthetic name `field<k>` for a positional segment.
fn synthetic_name(k: u32) -> (r: String)
    ensures
        r@ == spec_field_name(k as int),
{
    proof {
        reveal_strlit("field");
        assert("field"@ =~= field_prefix());
    }
    let mut s = String::from_str("field");
    let d = u32_decimal(k);
    s.append(d.as_str());
    s
}

/// One compiled field of a schema: its position, its name, and the
/// literal delimiter text expected immediately before and after its
/// value in a log line (either may be empty).
#[derive(Debug, PartialEq)]
pub struct LogField {
    pub ordinal: u32,
    pub name: String,
    pub preceded_by: String,
    pub terminated_by: String,
}

impl View for LogField {
    type V = FieldModel;

    open spec fn view(&self) -> FieldModel {
        FieldModel {
            ordinal: self.ordinal as int,
            name: self.name@,
            preceded_by: self.preceded_by@,
            terminated_by: self.terminated_by@,
        }
    }
}

/// A compiled schema: the ordered field descriptors and the configured
/// separator. Built once by [`LogFormat::new`], immutable thereafter,
/// reusable across many lines.
#[derive(Debug, PartialEq)]
pub struct LogFormat {
    pub fields: Vec<LogField>,
    pub seperator: String,
}

impl View for LogFormat {
    type V = FormatModel;

    open spec fn view(&self) -> FormatModel {
        FormatModel {
            fields: Seq::new(self.fields@.len(), |i: int| self.fields@[i]@),
            seperator: self.seperator@,
        }
    }
}

/// The descriptor for one template segment, or `InvalidTemplate` when
/// the segment holds a `$` but no well-formed placeholder.
fn compile_segment(segment: &str, ordinal: u32) -> (r: Result<LogField, TemplateError>)
    ensures
        match r {
            Ok(f) => spec_segment_field(segment@, ordinal as int) == Some(f@),
            Err(_) => spec_segment_field(segment@, ordinal as int) is None,
        },
{
    if !contains_dollar(segment) {
        let name = synthetic_name(ordinal);
        return Ok(
            LogField { ordinal, name, preceded_by: String::new(), terminated_by: String::new() },
        );
    }
    match find_token(segment) {
        None => Err(TemplateError::InvalidTemplate),
        Some((start, end)) => {
            let n = segment.unicode_len();
            proof {
                lemma_token_start_characterize(segment@, 0);
            }
            let token = segment.substring_char(start, end);
            let name = segment.substring_char(start + 1, end).to_owned();
            let remainder = remove_all_exec(segment, token);
            let rl = remainder.as_str().unicode_len();
            if rl > 0 {
                let preceded_by = remainder.as_str().substring_char(0, 1).to_owned();
                let terminated_by = remainder.as_str().substring_char(rl - 1, rl).to_owned();
                proof {
                    assert(preceded_by@ =~= seq![remainder@[0]]);
                    assert(terminated_by@ =~= seq![remainder@[rl - 1]]);
                }
                Ok(LogField { ordinal, name, preceded_by, terminated_by })
            } else {
                Ok(
                    LogField {
                        ordinal,
                        name,
                        preceded_by: String::new(),
                        terminated_by: String::new(),
                    },
                )
            }
        },
    }
}

impl LogFormat {
    /// Compile `format` into a schema, splitting on `seperator` and
    /// compiling each segment in order; `InvalidTemplate` exactly when
    /// some segment holds a malformed placeholder.
    pub fn new(format: &str, seperator: &str) -> (r: Result<LogFormat, TemplateError>)
        requires
            seperator@.len() > 0,
            format@.len() < u32::MAX,
        ensures
            match r {
                Ok(lf) => {
                    &&& spec_compile(format@, seperator@) == Some(lf@.fields)
                    &&& lf@.seperator == seperator@
                    &&& lf@.wf()
                    &&& compiled_delims(lf@.fields)
                },
                Err(_) => spec_compile(format@, seperator@) is None,
            },
    {
        let ghost segs = split_on(format@, seperator@);
        proof {
            lemma_split_on_len(format@, seperator@);
        }
        let mut fields: Vec<LogField> = Vec::new();
        let mut idx: u32 = 0;
        let mut remaining: &str = format;
        let mut more: bool = true;
        while more
            invariant
                seperator@.len() > 0,
                segs == split_on(format@, seperator@),
                1 <= segs.len() <= format@.len() + 1,
                format@.len() < u32::MAX,
                idx as int == fields@.len(),
                forall|j: int|
                    0 <= j < idx as int ==> spec_segment_field(segs[j], j) == Some(
                        #[trigger] fields@[j]@,
                    ),
                more ==> (idx as int) < segs.len() && split_on(remaining@, seperator@)
                    == segs.skip(idx as int),
                !more ==> idx as int == segs.len(),
            decreases segs.len() - idx as int,
        {
            let seg: &str;
            proof {
                lemma_find_at_characterize(remaining@, seperator@, 0);
            }
            match until_delimiter(remaining, seperator) {
                Some(p) => {
                    let rest = p.0;
                    seg = p.1;
                    let rest_n = rest.unicode_len();
                    let sep_n = seperator.unicode_len();
                    let next = rest.substring_char(sep_n, rest_n);
                    proof {
                        let i = spec_find(remaining@, seperator@)->0;
                        assert(next@ =~= remaining@.subrange(
                            i + seperator@.len(),
                            remaining@.len() as int,
                        ));
                        assert(segs.skip(idx as int) == seq![seg@] + split_on(
                            next@,
                            seperator@,
                        ));
                        assert(segs.skip(idx as int).len() == segs.len() - idx as int);
                        assert(split_on(next@, seperator@).len() == segs.len() - idx as int - 1);
                        assert(segs.skip(idx as int)[0] == seg@);
                        assert(segs[idx as int] == seg@);
                        assert forall|t: int|
                            0 <= t < split_on(next@, seperator@).len() implies split_on(
                            next@,
                            seperator@,
                        )[t] == segs.skip(idx as int + 1)[t] by {
                            assert(segs.skip(idx as int)[t + 1] == split_on(next@, seperator@)[t]);
                            assert(segs.skip(idx as int)[t + 1] == segs[idx as int + 1 + t]);
                            assert(segs.skip(idx as int + 1)[t] == segs[idx as int + 1 + t]);
                        }
                        assert(split_on(next@, seperator@) =~= segs.skip(idx as int + 1));
                        lemma_split_on_len(next@, seperator@);
                    }
                    remaining = next;
                },
                None => {
                    seg = remaining;
                    proof {
                        assert(segs.skip(idx as int) == seq![seg@]);
                        assert(segs.skip(idx as int)[0] == seg@);
                        assert(segs[idx as int] == seg@);
                        assert(segs.len() - idx as int == 1);
                    }
                    more = false;
                },
            }
            match compile_segment(seg, idx) {
                Ok(f) => {
                    fields.push(f);
                },
                Err(e) => {
                    proof {
                        lemma_fields_from_none(segs, idx as int);
                    }
                    return Err(e);
                },
            }
            idx = idx + 1;
        }
        let lf = LogFormat { fields, seperator: seperator.to_owned() };
        proof {
            assert forall|j: int|
                0 <= j < segs.len() implies spec_segment_field(segs[j], j) == Some(
                #[trigger] lf@.fields[j],
            ) by {
                assert(spec_segment_field(segs[j], j) == Some(fields@[j]@));
            }
            lemma_fields_from_pointwise(segs, lf@.fields, 0);
            assert(lf@.fields.subrange(0, segs.len() as int) =~= lf@.fields);
            assert forall|k: int|
                0 <= k < lf@.fields.len() implies (#[trigger] lf@.fields[k]).ordinal == k
                    && lf@.fields[k].preceded_by.len() <= 1 && lf@.fields[k].terminated_by.len()
                    <= 1 by {
                assert(spec_segment_field(segs[k], k) == Some(lf@.fields[k]));
                lemma_segment_field_shape(segs[k], k);
            }
        }
        Ok(lf)
    }
}

/// Law: a template that splits on the separator into `N` segments
/// compiles, when it compiles at all, to exactly `N` descriptors whose
/// ordinals are `0..N-1` in template order, each descriptor compiled
/// from its own segment.
pub proof fn lemma_compile_field_count(template: Seq<char>, sep: Seq<char>)
    requires
        sep.len() > 0,
        spec_compile(template, sep) is Some,
    ensures
        ({
            let fields = spec_compile(template, sep)->0;
            let segs = split_on(template, sep);
            &&& fields.len() == segs.len()
            &&& forall|k: int| 0 <= k < fields.len() ==> (#[trigger] fields[k]).ordinal == k
            &&& forall|k: int|
                0 <= k < fields.len() ==> spec_segment_field(segs[k], k) == Some(
                    #[trigger] fields[k],
                )
        }),
{
    let segs = split_on(template, sep);
    let fields = spec_compile(template, sep)->0;
    lemma_fields_from_shape(segs, 0);
    assert forall|k: int|
        0 <= k < fields.len() implies spec_segment_field(segs[k], k) == Some(
        #[trigger] fields[k],
    ) by {
        assert(spec_segment_field(segs[k], k) == Some(fields[k - 0]));
    }
    assert forall|k: int| 0 <= k < fields.len() implies (#[trigger] fields[k]).ordinal == k by {
        assert(spec_segment_field(segs[k], k) == Some(fields[k - 0]));
        lemma_segment_field_shape(segs[k], k);
    }
}

/// Law: a segment with no placeholder token compiles to the synthetic
/// name `field<ordinal>` with no declared delimiters.
pub proof fn lemma_segment_without_token(seg: Seq<char>, k: int)
    requires
        !seg.contains('$'),
    ensures
        spec_segment_field(seg, k) == Some(
            (FieldModel {
                ordinal: k,
                name: spec_field_name(k),
                preceded_by: Seq::empty(),
                terminated_by: Seq::empty(),
            }),
        ),
{
}

/// Law: a segment `[$name]` compiles to name `name`, preceded by `[`
/// and terminated by `]`.
pub proof fn lemma_bracketed_segment(name: Seq<char>, k: int)
    requires
        name.len() > 0,
        forall|j: int| 0 <= j < name.len() ==> is_ident_char(#[trigger] name[j]),
    ensures
        spec_segment_field(seq!['['] + seq!['$'] + name + seq![']'], k) == Some(
            (FieldModel { ordinal: k, name, preceded_by: seq!['['], terminated_by: seq![']'] }),
        ),
{
    let seg = seq!['['] + seq!['$'] + name + seq![']'];
    let token = seq!['$'] + name;
    assert(seg[1] == '$');
    assert(seg.contains('$'));
    assert(seg[2] == name[0]);
    assert(is_token_start(seg, 1));
    assert(!is_token_start(seg, 0));
    assert(token_start_at(seg, 0) == token_start_at(seg, 1));
    assert(token_start_at(seg, 1) == Some(1int));
    assert forall|t: int| 2 <= t < 2 + name.len() as int implies is_ident_char(#[trigger] seg[t]) by {
        assert(seg[t] == name[t - 2]);
    }
    assert(seg[2 + name.len() as int] == ']');
    assert(!is_ident_char(']'));
    lemma_ident_end_run(seg, 2, 2 + name.len() as int);
    assert(ident_end(seg, 2int) == 2 + name.len() as int);
    assert(seg.subrange(2, 2 + name.len() as int) =~= name);
    assert(seg.subrange(1, 2 + name.len() as int) =~= token);
    assert(seg.subrange(0, token.len() as int)[0] == '[');
    assert(seg.subrange(0, token.len() as int) != token);
    assert(seg.subrange(1, seg.len() as int) =~= token + seq![']']);
    let rest1 = token + seq![']'];
    assert(rest1.subrange(0, token.len() as int) =~= token);
    assert(rest1.subrange(token.len() as int, rest1.len() as int) =~= seq![']']);
    assert(remove_all(seq![']'], token) == seq![']']);
    assert(remove_all(rest1, token) == seq![']']);
    assert(remove_all(seg, token) == seq![seg[0]] + seq![']']);
    let rem = remove_all(seg, token);
    assert(rem.len() == 2 && rem[0] == '[' && rem[1] == ']');
    assert(seq![rem[0]] =~= seq!['[']);
    assert(seq![rem[rem.len() - 1]] =~= seq![']']);
}

/// Law: a segment that is exactly a `$name` placeholder compiles to
/// name `name` with both delimiters left empty.
pub proof fn lemma_bare_token_segment(name: Seq<char>, k: int)
    requires
        name.len() > 0,
        forall|j: int| 0 <= j < name.len() ==> is_ident_char(#[trigger] name[j]),
    ensures
        spec_segment_field(seq!['$'] + name, k) == Some(
            (FieldModel {
                ordinal: k,
                name,
                preceded_by: Seq::empty(),
                terminated_by: Seq::empty(),
            }),
        ),
{
    let seg = seq!['$'] + name;
    assert(seg[0] == '$');
    assert(seg.contains('$'));
    assert(seg[1] == name[0]);
    assert(is_token_start(seg, 0));
    assert(token_start_at(seg, 0) == Some(0int));
    assert forall|t: int| 1 <= t < seg.len() implies is_ident_char(#[trigger] seg[t]) by {
        assert(seg[t] == name[t - 1]);
    }
    lemma_ident_end_run(seg, 1, seg.len() as int);
    assert(seg.subrange(1, seg.len() as int) =~= name);
    assert(seg.subrange(0, seg.len() as int) =~= seg);
    assert(seg.subrange(seg.len() as int, seg.len() as int) =~= Seq::<char>::empty());
    assert(remove_all(Seq::<char>::empty(), seg) == Seq::<char>::empty());
    assert(remove_all(seg, seg) == Seq::<char>::empty());
}

} // verus!
