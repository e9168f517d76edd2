//! The in-memory model of the configuration file: an ordered, round-trippable
//! sequence of directives.

use crate::directive::{
    directive_wf, has_assignment_shape, is_key_char, is_key_start, is_raw_line, is_space, key_char,
    key_start_char, lemma_key_prefix_boundary, lemma_line_round_trip, lemma_lstrip_boundary,
    lemma_parse_line_lossless, lstrip, no_newline, parse_line, parse_value, raw_line_check,
    serialize_line,
    space_char, valid_key, wrap_value, Directive, DirectiveModel, QuoteStyle,
};
use crate::strutil::{chars_of, str_eq, substring_chars};
use crate::ConfigError;
use vstd::prelude::*;
use vstd::string::StrSliceExecFns;
use vstd::string::StringExecFns;

verus! {

/// Index of the first line break, or the length of the text when there is
/// none.
pub open spec fn first_nl(t: Seq<char>) -> nat
    decreases t.len(),
{
    if t.len() == 0 {
        0
    } else if t[0] == '\n' {
        0
    } else {
        1 + first_nl(t.drop_first())
    }
}

pub proof fn lemma_first_nl(t: Seq<char>)
    ensures
        first_nl(t) <= t.len(),
        forall|i: int| 0 <= i < first_nl(t) ==> #[trigger] t[i] != '\n',
        first_nl(t) < t.len() ==> t[first_nl(t) as int] == '\n',
    decreases t.len(),
{
    if t.len() > 0 && t[0] != '\n' {
        lemma_first_nl(t.drop_first());
        assert forall|i: int| 0 <= i < first_nl(t) implies #[trigger] t[i] != '\n' by {
            if i > 0 {
                assert(t.drop_first()[i - 1] == t[i]);
            }
        }
        if first_nl(t) < t.len() {
            assert(t.drop_first()[first_nl(t) as int - 1] == t[first_nl(t) as int]);
        }
    }
}

/// The text cut at every line break; the separators are not kept. Text with
/// `k` breaks yields `k + 1` pieces, so a trailing break yields a final empty
/// piece and the split is invertible.
pub open spec fn split_lines(t: Seq<char>) -> Seq<Seq<char>>
    decreases t.len(),
{
    let n = first_nl(t) as int;
    if n >= t.len() {
        seq![t]
    } else {
        seq![t.take(n)] + split_lines(t.skip(n + 1))
    }
}

/// The pieces joined back with a line break between each two.
pub open spec fn join_lines(ls: Seq<Seq<char>>) -> Seq<char>
    decreases ls.len(),
{
    if ls.len() == 0 {
        Seq::empty()
    } else if ls.len() == 1 {
        ls[0]
    } else {
        ls[0] + seq!['\n'] + join_lines(ls.drop_first())
    }
}

/// The document's model: the models of its directives, in order.
pub open spec fn parse_doc(t: Seq<char>) -> Option<Seq<DirectiveModel>> {
    let ls = split_lines(t);
    if forall|i: int| 0 <= i < ls.len() ==> (#[trigger] parse_line(ls[i])) is Some {
        Some(Seq::new(ls.len(), |i: int| parse_line(ls[i]).unwrap()))
    } else {
        None
    }
}

/// The document's text: each directive's line, joined with line breaks.
pub open spec fn serialize_doc(ds: Seq<DirectiveModel>) -> Seq<char> {
    join_lines(Seq::new(ds.len(), |i: int| serialize_line(ds[i])))
}

/// Well-formedness of a document: at least one (possibly blank) line, each
/// directive well-formed.
pub open spec fn doc_wf(ds: Seq<DirectiveModel>) -> bool {
    &&& ds.len() >= 1
    &&& forall|i: int| 0 <= i < ds.len() ==> directive_wf(#[trigger] ds[i])
}

pub proof fn lemma_first_nl_boundary(t: Seq<char>, n: int)
    requires
        0 <= n <= t.len(),
        forall|i: int| 0 <= i < n ==> #[trigger] t[i] != '\n',
        n < t.len() ==> t[n] == '\n',
    ensures
        first_nl(t) == n,
    decreases n,
{
    if n == 0 {
    } else {
        lemma_first_nl_boundary(t.drop_first(), n - 1);
    }
}

/// When the text holds no line break at all, it is one single piece.
pub proof fn lemma_no_newline_first_nl(t: Seq<char>)
    requires
        no_newline(t),
    ensures
        first_nl(t) == t.len(),
        split_lines(t) == seq![t],
{
    lemma_first_nl_boundary(t, t.len() as int);
}

/// Splitting always yields at least one piece, and no piece holds a line
/// break.
pub proof fn lemma_split_lines_pieces(t: Seq<char>)
    ensures
        split_lines(t).len() >= 1,
        forall|i: int|
            0 <= i < split_lines(t).len() ==> no_newline(#[trigger] split_lines(t)[i]),
    decreases t.len(),
{
    lemma_first_nl(t);
    let n = first_nl(t) as int;
    if n == t.len() {
    } else {
        lemma_split_lines_pieces(t.skip(n + 1));
        assert forall|i: int| 0 <= i < split_lines(t).len() implies no_newline(
            #[trigger] split_lines(t)[i],
        ) by {
            if i == 0 {
                assert(forall|j: int| 0 <= j < n ==> t.take(n)[j] == #[trigger] t[j]);
            } else {
                assert(split_lines(t)[i] == split_lines(t.skip(n + 1))[i - 1]);
            }
        }
    }
}

/// Joining the split pieces reproduces the text exactly.
pub proof fn lemma_join_split(t: Seq<char>)
    ensures
        join_lines(split_lines(t)) == t,
    decreases t.len(),
{
    lemma_first_nl(t);
    let n = first_nl(t) as int;
    if n == t.len() {
    } else {
        lemma_join_split(t.skip(n + 1));
        let rest = split_lines(t.skip(n + 1));
        lemma_split_lines_pieces(t.skip(n + 1));
        let ls = split_lines(t);
        assert(ls.drop_first() =~= rest);
        assert(ls.len() >= 2);
        assert(join_lines(ls) == t.take(n) + seq!['\n'] + t.skip(n + 1));
        assert(join_lines(ls) =~= t);
    }
}

pub proof fn lemma_first_nl_concat(a: Seq<char>, b: Seq<char>)
    requires
        no_newline(a),
    ensures
        first_nl(a + seq!['\n'] + b) == a.len(),
    decreases a.len(),
{
    let t = a + seq!['\n'] + b;
    if a.len() == 0 {
        assert(t[0] == '\n');
    } else {
        assert(t[0] == a[0]);
        lemma_first_nl_concat(a.drop_first(), b);
        assert(t.drop_first() =~= a.drop_first() + seq!['\n'] + b);
    }
}

/// Splitting the joined pieces returns the pieces, as long as each piece is
/// free of line breaks.
pub proof fn lemma_split_join(ls: Seq<Seq<char>>)
    requires
        ls.len() >= 1,
        forall|i: int| 0 <= i < ls.len() ==> no_newline(#[trigger] ls[i]),
    ensures
        split_lines(join_lines(ls)) == ls,
    decreases ls.len(),
{
    if ls.len() == 1 {
        lemma_no_newline_first_nl(ls[0]);
        assert(split_lines(join_lines(ls)) =~= ls);
    } else {
        let rest = ls.drop_first();
        let t = join_lines(ls);
        assert(t == ls[0] + seq!['\n'] + join_lines(rest));
        lemma_first_nl_concat(ls[0], join_lines(rest));
        let n = ls[0].len() as int;
        assert(first_nl(t) == n && n < t.len());
        assert(t.take(n) =~= ls[0]);
        assert(t.skip(n + 1) =~= join_lines(rest));
        lemma_split_join(rest);
        assert(split_lines(t) =~= ls);
    }
}

/// Appending one more piece extends the joined text by a separator and the
/// piece.
pub proof fn lemma_join_push(ls: Seq<Seq<char>>, l: Seq<char>)
    requires
        ls.len() >= 1,
    ensures
        join_lines(ls.push(l)) == join_lines(ls) + seq!['\n'] + l,
    decreases ls.len(),
{
    if ls.len() == 1 {
        assert(ls.push(l).drop_first() =~= seq![l]);
        assert(ls.push(l)[0] == ls[0]);
        assert(join_lines(seq![l]) == l);
        assert(join_lines(ls.push(l)) == ls[0] + seq!['\n'] + l);
    } else {
        lemma_join_push(ls.drop_first(), l);
        assert(ls.push(l).drop_first() =~= ls.drop_first().push(l));
        assert(join_lines(ls.push(l)) == ls[0] + seq!['\n'] + (join_lines(ls.drop_first())
            + seq!['\n'] + l));
        assert(join_lines(ls.push(l)) =~= join_lines(ls) + seq!['\n'] + l);
    }
}

/// A well-formed document parses back from its own text: serialization is
/// inverted by parsing, directive for directive.
pub proof fn lemma_serialize_parse(ds: Seq<DirectiveModel>)
    requires
        doc_wf(ds),
    ensures
        parse_doc(serialize_doc(ds)) == Some(ds),
{
    let lines = Seq::new(ds.len(), |i: int| serialize_line(ds[i]));
    assert forall|i: int| 0 <= i < lines.len() implies no_newline(#[trigger] lines[i]) by {
        lemma_line_round_trip(ds[i]);
    }
    lemma_split_join(lines);
    let t = serialize_doc(ds);
    assert(split_lines(t) == lines);
    assert forall|i: int|
        0 <= i < lines.len() implies (#[trigger] parse_line(lines[i])) == Some(ds[i]) by {
        lemma_line_round_trip(ds[i]);
    }
    assert(parse_doc(t) == Some(Seq::new(lines.len(), |i: int| parse_line(lines[i]).unwrap())));
    assert(Seq::new(lines.len(), |i: int| parse_line(lines[i]).unwrap()) =~= ds);
}

/// What the parser accepts it reproduces byte for byte: the parsed document
/// is well-formed and serializes back to the input text.
pub proof fn lemma_parse_lossless(t: Seq<char>)
    requires
        parse_doc(t) is Some,
    ensures
        doc_wf(parse_doc(t).unwrap()),
        serialize_doc(parse_doc(t).unwrap()) == t,
{
    let ls = split_lines(t);
    lemma_split_lines_pieces(t);
    let ds = parse_doc(t).unwrap();
    assert forall|i: int| 0 <= i < ds.len() implies directive_wf(#[trigger] ds[i])
        && serialize_line(ds[i]) == ls[i] by {
        lemma_parse_line_lossless(ls[i]);
    }
    assert(Seq::new(ds.len(), |i: int| serialize_line(ds[i])) =~= ls);
    lemma_join_split(t);
}

/// Round trip: for any text the parser accepts, serializing the parsed
/// document reproduces the text exactly, and parsing that serialization
/// yields the same document again (idempotent normalization).
pub proof fn lemma_round_trip(t: Seq<char>)
    requires
        parse_doc(t) is Some,
    ensures
        serialize_doc(parse_doc(t).unwrap()) == t,
        parse_doc(serialize_doc(parse_doc(t).unwrap())) == parse_doc(t),
{
    lemma_parse_lossless(t);
}

/// The directive at `i` assigns key `k`.
pub open spec fn key_at(ds: Seq<DirectiveModel>, i: int, k: Seq<char>) -> bool {
    ds[i].has_assignment && ds[i].key == Some(k)
}

/// Index of the first directive assigning `k`; the length when there is
/// none. Lookups and updates act on the first occurrence of a duplicate key
/// (a deliberate design decision: the earliest assignment is the one edited
/// in place, later duplicates are preserved untouched).
pub open spec fn first_match_idx(ds: Seq<DirectiveModel>, k: Seq<char>) -> int
    decreases ds.len(),
{
    if ds.len() == 0 {
        0
    } else if key_at(ds, 0, k) {
        0
    } else {
        1 + first_match_idx(ds.drop_first(), k)
    }
}

/// The value of the first directive assigning `k`, if any.
pub open spec fn lookup(ds: Seq<DirectiveModel>, k: Seq<char>) -> Option<Seq<char>> {
    if first_match_idx(ds, k) < ds.len() {
        Some(ds[first_match_idx(ds, k)].value)
    } else {
        None
    }
}

pub proof fn lemma_first_match_boundary(ds: Seq<DirectiveModel>, k: Seq<char>, n: int)
    requires
        0 <= n <= ds.len(),
        forall|i: int| 0 <= i < n ==> !key_at(ds, i, k),
        n < ds.len() ==> key_at(ds, n, k),
    ensures
        first_match_idx(ds, k) == n,
    decreases n,
{
    if n == 0 {
    } else {
        assert(!key_at(ds, 0, k));
        assert forall|i: int| 0 <= i < ds.drop_first().len() implies key_at(
            ds.drop_first(),
            i,
            k,
        ) == key_at(ds, i + 1, k) by {
            assert(ds.drop_first()[i] == ds[i + 1]);
        }
        lemma_first_match_boundary(ds.drop_first(), k, n - 1);
    }
}

/// A character that forces the value into double quotes.
pub open spec fn is_reserved(c: char) -> bool {
    is_space(c) || c == '"' || c == '\'' || c == '#' || c == '='
}

/// The file's quoting rule: wrap in double quotes when the value contains
/// whitespace or a reserved character, leave it unquoted otherwise.
pub open spec fn needs_quotes(v: Seq<char>) -> bool {
    exists|i: int| 0 <= i < v.len() && is_reserved(#[trigger] v[i])
}

pub open spec fn chosen_style(v: Seq<char>) -> QuoteStyle {
    if needs_quotes(v) {
        QuoteStyle::Double
    } else {
        QuoteStyle::Unquoted
    }
}

/// The directive that `set` writes: key, value, the quoting the rule picks,
/// and the canonical line as raw text.
pub open spec fn assigned_directive(k: Seq<char>, v: Seq<char>) -> DirectiveModel {
    DirectiveModel {
        key: Some(k),
        value: v,
        raw_text: k + seq!['='] + wrap_value(chosen_style(v), v),
        has_assignment: true,
        quote_style: chosen_style(v),
    }
}

pub proof fn lemma_assigned_wf(k: Seq<char>, v: Seq<char>)
    requires
        valid_key(k),
        no_newline(v),
    ensures
        directive_wf(assigned_directive(k, v)),
{
    let d = assigned_directive(k, v);
    let w = wrap_value(chosen_style(v), v);
    assert forall|i: int| 0 <= i < d.raw_text.len() implies #[trigger] d.raw_text[i]
        != '\n' by {
        if i < k.len() {
            assert(is_key_char(k[i]));
        } else if i > k.len() {
            if needs_quotes(v) {
                if i - k.len() - 1 > 0 && i < d.raw_text.len() - 1 {
                    assert(d.raw_text[i] == v[i - k.len() - 2]);
                }
            } else {
                assert(d.raw_text[i] == v[i - k.len() - 1]);
            }
        }
    }
}

/// The document after `set`: the first directive assigning `k` replaced in
/// place, or the new directive appended when `k` is absent.
pub open spec fn set_doc(ds: Seq<DirectiveModel>, k: Seq<char>, v: Seq<char>) -> Seq<
    DirectiveModel,
> {
    let i = first_match_idx(ds, k);
    if i < ds.len() {
        ds.update(i, assigned_directive(k, v))
    } else {
        ds.push(assigned_directive(k, v))
    }
}

/// The key that names the default boot entry.
pub open spec fn default_key() -> Seq<char> {
    "GRUB_DEFAULT"@
}

/// A bare value line: not an assignment, not a blank line or comment.
pub open spec fn is_bare(d: DirectiveModel) -> bool {
    !d.has_assignment && !is_raw_line(d.raw_text)
}

/// The directive at `i` is a bare line holding exactly `v`.
pub open spec fn bare_at(ds: Seq<DirectiveModel>, i: int, v: Seq<char>) -> bool {
    is_bare(ds[i]) && ds[i].value == v
}

/// Index of the first bare directive holding `v`; the length when there is
/// none.
pub open spec fn first_bare_idx(ds: Seq<DirectiveModel>, v: Seq<char>) -> int
    decreases ds.len(),
{
    if ds.len() == 0 {
        0
    } else if bare_at(ds, 0, v) {
        0
    } else {
        1 + first_bare_idx(ds.drop_first(), v)
    }
}

pub proof fn lemma_first_bare_boundary(ds: Seq<DirectiveModel>, v: Seq<char>, n: int)
    requires
        0 <= n <= ds.len(),
        forall|i: int| 0 <= i < n ==> !bare_at(ds, i, v),
        n < ds.len() ==> bare_at(ds, n, v),
    ensures
        first_bare_idx(ds, v) == n,
    decreases n,
{
    if n == 0 {
    } else {
        assert(!bare_at(ds, 0, v));
        assert forall|i: int| 0 <= i < ds.drop_first().len() implies bare_at(
            ds.drop_first(),
            i,
            v,
        ) == bare_at(ds, i + 1, v) by {
            assert(ds.drop_first()[i] == ds[i + 1]);
        }
        lemma_first_bare_boundary(ds.drop_first(), v, n - 1);
    }
}

/// The document with a boot entry's backing directive removed, if any: the
/// first bare line holding the entry's identifier leaves, everything else
/// keeps its place.
pub open spec fn remove_backing(ds: Seq<DirectiveModel>, v: Seq<char>) -> Seq<DirectiveModel> {
    let i = first_bare_idx(ds, v);
    if i < ds.len() {
        ds.remove(i)
    } else {
        ds
    }
}

pub proof fn lemma_first_bare_nonneg(ds: Seq<DirectiveModel>, v: Seq<char>)
    ensures
        first_bare_idx(ds, v) >= 0,
    decreases ds.len(),
{
    if ds.len() == 0 {
    } else if bare_at(ds, 0, v) {
    } else {
        lemma_first_bare_nonneg(ds.drop_first(), v);
    }
}

/// Removal keeps every remaining directive well-formed.
pub proof fn lemma_remove_backing_wf(ds: Seq<DirectiveModel>, v: Seq<char>)
    requires
        doc_wf(ds),
    ensures
        remove_backing(ds, v).len() >= 1 ==> doc_wf(remove_backing(ds, v)),
{
    let i = first_bare_idx(ds, v);
    lemma_first_bare_nonneg(ds, v);
    if 0 <= i < ds.len() {
        ds.remove_ensures(i);
        let ds2 = ds.remove(i);
        if ds2.len() >= 1 {
            assert forall|k: int| 0 <= k < ds2.len() implies directive_wf(#[trigger] ds2[k]) by {
                if k < i {
                    assert(ds2[k] == ds[k]);
                } else {
                    assert(ds2[k] == ds[k + 1]);
                }
            }
        }
    }
}

/// Empty text parses: it is one single blank line.
pub proof fn lemma_empty_doc_parses(t: Seq<char>)
    requires
        t.len() == 0,
    ensures
        parse_doc(t) is Some,
{
    assert(first_nl(t) == 0);
    let ls = split_lines(t);
    assert(ls =~~= seq![t]);
    assert(lstrip(t) == t);
    assert(is_raw_line(t));
    assert(forall|i: int| 0 <= i < ls.len() ==> (#[trigger] parse_line(ls[i])) is Some);
}

/// A field-for-field copy.
fn clone_directive(d: &Directive) -> (r: Directive)
    ensures
        r@ == d@,
{
    Directive {
        key: match &d.key {
            Some(k) => Some(k.clone()),
            None => None,
        },
        value: d.value.clone(),
        raw_text: d.raw_text.clone(),
        has_assignment: d.has_assignment,
        quote_style: d.quote_style,
    }
}

/// The assignment pairs of the document, in order of appearance.
pub open spec fn pairs_of(ds: Seq<DirectiveModel>) -> Seq<(Seq<char>, Seq<char>)>
    decreases ds.len(),
{
    if ds.len() == 0 {
        Seq::empty()
    } else {
        let rest = pairs_of(ds.drop_first());
        if ds[0].has_assignment {
            seq![(ds[0].key.unwrap(), ds[0].value)] + rest
        } else {
            rest
        }
    }
}

/// Parses one line (without its line break) into a directive.
#[verifier::rlimit(60)]
fn parse_one_line(line: &Vec<char>) -> (r: Result<Directive, ConfigError>)
    ensures
        match r {
            Ok(d) => parse_line(line@) == Some(d@),
            Err(e) => parse_line(line@) is None && e == ConfigError::ParseError,
        },
{
    let l = line;
    let ghost t = line@;
    let n = l.len();
    // leading horizontal whitespace
    let mut i: usize = 0;
    while i < n && space_char(l[i])
        invariant
            i <= n,
            n == t.len(),
            l@ == t,
            forall|j: int| 0 <= j < i ==> is_space(#[trigger] t[j]),
        decreases n - i,
    {
        i = i + 1;
    }
    proof {
        lemma_lstrip_boundary(t, i as int);
    }
    if i == n || l[i] == '#' {
        // blank line or comment: raw passthrough
        let raw = substring_chars(l, 0, n);
        proof {
            assert(raw@ =~= t);
            assert(is_raw_line(t));
        }
        let val = raw.clone();
        return Ok(
            Directive {
                key: None,
                value: val,
                raw_text: raw,
                has_assignment: false,
                quote_style: QuoteStyle::Unquoted,
            },
        );
    }
    proof {
        assert(lstrip(t) == t.skip(i as int));
        assert(lstrip(t)[0] == t[i as int]);
        assert(!is_raw_line(t));
    }
    let assignment_end: Option<usize> = if i > 0 || !key_start_char(l[0]) {
        None
    } else {
        let mut j: usize = 0;
        while j < n && key_char(l[j])
            invariant
                j <= n,
                n == t.len(),
                l@ == t,
                forall|m: int| 0 <= m < j ==> is_key_char(#[trigger] t[m]),
            decreases n - j,
        {
            j = j + 1;
        }
        proof {
            lemma_key_prefix_boundary(t, j as int);
        }
        if j == n || l[j] != '=' {
            None
        } else {
            Some(j)
        }
    };
    match assignment_end {
        None => {
            // a bare value line: preserved verbatim
            proof {
                assert(!has_assignment_shape(t));
            }
            let raw = substring_chars(l, 0, n);
            proof {
                assert(raw@ =~= t);
            }
            let val = raw.clone();
            Ok(
                Directive {
                    key: None,
                    value: val,
                    raw_text: raw,
                    has_assignment: false,
                    quote_style: QuoteStyle::Unquoted,
                },
            )
        },
        Some(j) => {
            proof {
                assert(has_assignment_shape(t));
            }
            let key = substring_chars(l, 0, j);
            proof {
                assert(key@ =~= t.take(j as int));
            }
            let vstart = j + 1;
            let ghost w = t.skip(j + 1);
            proof {
                assert(w.len() == n - vstart);
                assert(forall|m: int| 0 <= m < w.len() ==> w[m] == #[trigger] t[vstart + m]);
            }
            let vlen = n - vstart;
            let (st, val) = if vlen >= 2 && l[vstart] == '"' && l[n - 1] == '"' {
                let val = substring_chars(l, vstart + 1, n - 1);
                proof {
                    assert(val@ =~= w.subrange(1, w.len() - 1));
                }
                (QuoteStyle::Double, val)
            } else if vlen >= 2 && l[vstart] == '\'' && l[n - 1] == '\'' {
                let val = substring_chars(l, vstart + 1, n - 1);
                proof {
                    assert(val@ =~= w.subrange(1, w.len() - 1));
                }
                (QuoteStyle::Single, val)
            } else if vlen >= 1 && (l[vstart] == '"' || l[vstart] == '\'') {
                // an opening quote that never closes cannot be represented
                proof {
                    assert(parse_value(w) is None);
                }
                return Err(ConfigError::ParseError);
            } else {
                let val = substring_chars(l, vstart, n);
                proof {
                    assert(val@ =~= w);
                }
                (QuoteStyle::Unquoted, val)
            };
            let raw = substring_chars(l, 0, n);
            proof {
                assert(raw@ =~= t);
                assert(parse_value(w) == Some((st, val@)));
            }
            Ok(
                Directive {
                    key: Some(key),
                    value: val,
                    raw_text: raw,
                    has_assignment: true,
                    quote_style: st,
                },
            )
        },
    }
}

/// Ordered, round-trippable in-memory form of the configuration file.
///
/// Order is semantically significant: later assignments of the same key are
/// kept, not deduplicated; reads and updates act on the first occurrence.
pub struct DirectiveDocument {
    directives: Vec<Directive>,
}

impl View for DirectiveDocument {
    type V = Seq<DirectiveModel>;

    closed spec fn view(&self) -> Seq<DirectiveModel> {
        self.directives@.map_values(|d: Directive| d@)
    }
}

impl DirectiveDocument {
    /// Every document the library hands out satisfies this; `parse`
    /// establishes it and every mutation preserves it.
    pub open spec fn wf(&self) -> bool {
        doc_wf(self@)
    }

    /// Splits the text into lines and classifies each one. Fails only on a
    /// line the format cannot represent (an unterminated quote);
    /// malformed-but-representable lines are preserved verbatim.
    #[verifier::loop_isolation(false)]
    pub fn parse(text: &str) -> (r: Result<DirectiveDocument, ConfigError>)
        ensures
            match r {
                Ok(doc) => parse_doc(text@) == Some(doc@) && doc.wf(),
                Err(e) => parse_doc(text@) is None && e == ConfigError::ParseError,
            },
    {
        let cs = chars_of(text);
        let ghost t = text@;
        let n = cs.len();
        let mut dirs: Vec<Directive> = Vec::new();
        let ghost mut done: Seq<Seq<char>> = Seq::empty();
        let mut pos: usize = 0;
        let mut finished = false;
        proof {
            assert(t.skip(0) =~= t);
            assert(done + split_lines(t) =~~= split_lines(t));
        }
        while !finished
            invariant
                cs@ == t,
                n == t.len(),
                pos <= n,
                dirs@.len() == done.len(),
                forall|i: int|
                    0 <= i < done.len() ==> parse_line(#[trigger] done[i]) == Some(dirs@[i]@),
                !finished ==> split_lines(t) == done + split_lines(t.skip(pos as int)),
                finished ==> split_lines(t) == done,
            decreases n - pos + (if finished { 0int } else { 1int }),
        {
            // the current line runs to the next line break or the end
            let mut j = pos;
            while j < n && cs[j] != '\n'
                invariant
                    pos <= j <= n,
                    n == t.len(),
                    cs@ == t,
                    forall|m: int| pos <= m < j ==> #[trigger] t[m] != '\n',
                decreases n - j,
            {
                j = j + 1;
            }
            proof {
                assert(forall|m2: int|
                    0 <= m2 < t.skip(pos as int).len() ==> t.skip(pos as int)[m2] == #[trigger] t[
                        pos + m2
                    ]);
                lemma_first_nl_boundary(t.skip(pos as int), j - pos);
            }
            let mut line: Vec<char> = Vec::new();
            let mut m = pos;
            while m < j
                invariant
                    pos <= m <= j <= n,
                    cs@ == t,
                    n == t.len(),
                    line@ == t.subrange(pos as int, m as int),
                decreases j - m,
            {
                line.push(cs[m]);
                proof {
                    assert(t.subrange(pos as int, m + 1) =~= t.subrange(pos as int,
                        m as int,
                    ).push(t[m as int]));
                }
                m = m + 1;
            }
            proof {
                assert(line@ =~= t.skip(pos as int).take(j - pos));
            }
            match parse_one_line(&line) {
                Err(_) => {
                    proof {
                        let s = t.skip(pos as int);
                        assert(first_nl(s) == j - pos);
                        if j == n {
                            assert(line@ =~= s);
                            assert(split_lines(s) == seq![s]);
                        } else {
                            assert(split_lines(s) == seq![s.take(j - pos)] + split_lines(
                                s.skip(j - pos + 1),
                            ));
                            lemma_split_lines_pieces(s.skip(j - pos + 1));
                        }
                        assert(split_lines(s)[0] == line@);
                        let ls = split_lines(t);
                        assert(ls[done.len() as int] == line@);
                        assert(parse_line(ls[done.len() as int]) is None);
                        assert(parse_doc(t) is None);
                    }
                    return Err(ConfigError::ParseError);
                },
                Ok(d) => {
                    dirs.push(d);
                    proof {
                        done = done.push(line@);
                    }
                    if j == n {
                        proof {
                            let s = t.skip(pos as int);
                            assert(first_nl(s) == j - pos);
                            assert(s.take(j - pos) =~= s);
                            assert(split_lines(s) == seq![s]);
                            assert(split_lines(s) =~~= seq![line@]);
                            assert(done.drop_last() + split_lines(s) =~~= done);
                        }
                        finished = true;
                    } else {
                        proof {
                            let s = t.skip(pos as int);
                            assert(t[j as int] == '\n');
                            assert(first_nl(s) == j - pos);
                            assert(j - pos < s.len());
                            assert(split_lines(s) == seq![s.take(j - pos)] + split_lines(
                                s.skip(j - pos + 1),
                            ));
                            assert(s.skip(j - pos + 1) =~= t.skip(j + 1));
                            assert(split_lines(s) =~~= seq![line@] + split_lines(t.skip(j + 1)));
                            assert(done.drop_last() + split_lines(s) =~~= done + split_lines(
                                t.skip(j + 1),
                            ));
                        }
                        pos = j + 1;
                    }
                },
            }
        }
        let doc = DirectiveDocument { directives: dirs };
        proof {
            let ls = split_lines(t);
            assert(forall|i: int|
                0 <= i < ls.len() ==> (#[trigger] parse_line(ls[i])) == Some(doc@[i]));
            assert(parse_doc(t) == Some(Seq::new(ls.len(), |i: int| parse_line(ls[i]).unwrap())));
            assert(Seq::new(ls.len(), |i: int| parse_line(ls[i]).unwrap()) =~= doc@);
            lemma_parse_lossless(t);
        }
        Ok(doc)
    }

    /// Reconstructs the text directive by directive; the result parses back
    /// to the same document.
    pub fn serialize(&self) -> (r: String)
        requires
            self.wf(),
        ensures
            r@ == serialize_doc(self@),
    {
        let ghost lines = Seq::new(self@.len(), |i: int| serialize_line(self@[i]));
        let mut out = String::new();
        let n = self.directives.len();
        let mut i: usize = 0;
        while i < n
            invariant
                self.wf(),
                n == self@.len(),
                i <= n,
                lines == Seq::new(self@.len(), |k: int| serialize_line(self@[k])),
                i == 0 ==> out@ == Seq::<char>::empty(),
                i >= 1 ==> out@ == join_lines(lines.take(i as int)),
            decreases n - i,
        {
            if i > 0 {
                out.append("\n");
            }
            out.append(self.directives[i].raw_text.as_str());
            proof {
                reveal_strlit("\n");
                assert(directive_wf(self@[i as int]));
                assert(serialize_line(self@[i as int]) == self@[i as int].raw_text);
                if i == 0 {
                    assert(lines.take(1) =~= seq![lines[0]]);
                    assert(join_lines(seq![lines[0]]) == lines[0]);
                } else {
                    assert(lines.take(i + 1) =~= lines.take(i as int).push(lines[i as int]));
                    lemma_join_push(lines.take(i as int), lines[i as int]);
                    assert("\n"@ =~= seq!['\n']);
                }
            }
            i = i + 1;
        }
        proof {
            assert(lines.take(n as int) =~= lines);
        }
        out
    }

    /// The value of the first directive assigning `key`, if any.
    pub fn get(&self, key: &str) -> (r: Option<String>)
        ensures
            match r {
                Some(v) => lookup(self@, key@) == Some(v@),
                None => lookup(self@, key@) is None,
            },
    {
        let n = self.directives.len();
        let mut i: usize = 0;
        while i < n
            invariant
                n == self@.len(),
                i <= n,
                forall|j: int| 0 <= j < i ==> !key_at(self@, j, key@),
            decreases n - i,
        {
            let dir = &self.directives[i];
            let hit = dir.has_assignment && (match &dir.key {
                Some(k0) => str_eq(k0.as_str(), key),
                None => false,
            });
            if hit {
                proof {
                    lemma_first_match_boundary(self@, key@, i as int);
                }
                return Some(dir.value.clone());
            }
            proof {
                assert(!key_at(self@, i as int, key@));
            }
            i = i + 1;
        }
        proof {
            lemma_first_match_boundary(self@, key@, n as int);
        }
        None
    }

    /// Updates the first directive assigning `key` in place, preserving its
    /// position; appends a new directive at the end when the key is absent.
    /// The quoting rule picks double quotes as soon as the value holds
    /// whitespace or a reserved character.
    #[verifier::loop_isolation(false)]
    pub fn set(&mut self, key: &str, value: &str)
        requires
            old(self).wf(),
            valid_key(key@),
            no_newline(value@),
        ensures
            final(self).wf(),
            final(self)@ == set_doc(old(self)@, key@, value@),
            lookup(final(self)@, key@) == Some(value@),
    {
        let ghost ds = self@;
        // the quoting rule
        let vn = value.unicode_len();
        let mut quote = false;
        let mut m: usize = 0;
        while m < vn
            invariant
                vn == value@.len(),
                m <= vn,
                quote == exists|j: int| 0 <= j < m && is_reserved(#[trigger] value@[j]),
            decreases vn - m,
        {
            let c = value.get_char(m);
            if space_char(c) || c == '"' || c == '\'' || c == '#' || c == '=' {
                quote = true;
            }
            m = m + 1;
        }
        proof {
            assert(quote == needs_quotes(value@));
        }
        // the canonical line
        let mut raw = String::from_str(key);
        raw.append("=");
        let st = if quote {
            raw.append("\"");
            raw.append(value);
            raw.append("\"");
            QuoteStyle::Double
        } else {
            raw.append(value);
            QuoteStyle::Unquoted
        };
        let d = Directive {
            key: Some(String::from_str(key)),
            value: String::from_str(value),
            raw_text: raw,
            has_assignment: true,
            quote_style: st,
        };
        proof {
            reveal_strlit("=");
            reveal_strlit("\"");
            assert("="@ =~= seq!['=']);
            assert("\""@ =~= seq!['"']);
            assert(d.raw_text@ =~= key@ + seq!['='] + wrap_value(chosen_style(value@), value@));
            assert(d@ == assigned_directive(key@, value@));
            lemma_assigned_wf(key@, value@);
        }
        let n = self.directives.len();
        let mut i: usize = 0;
        while i < n
            invariant
                self == old(self),
                ds == self@,
                n == self@.len(),
                i <= n,
                forall|j: int| 0 <= j < i ==> !key_at(ds, j, key@),
            decreases n - i,
        {
            let dir = &self.directives[i];
            let hit = dir.has_assignment && (match &dir.key {
                Some(k0) => str_eq(k0.as_str(), key),
                None => false,
            });
            if hit {
                proof {
                    lemma_first_match_boundary(ds, key@, i as int);
                }
                let ghost dvs = self.directives@;
                self.directives.set(i, d);
                proof {
                    assert(self.directives@ == dvs.update(i as int, d));
                    assert(self@.len() == ds.len());
                    assert forall|j: int| 0 <= j < ds.len() implies self@[j] == ds.update(
                        i as int,
                        assigned_directive(key@, value@),
                    )[j] by {
                        assert(self@[j] == self.directives@[j]@);
                        if j == i as int {
                            assert(self.directives@[j] == d);
                        } else {
                            assert(self.directives@[j] == dvs[j]);
                            assert(ds[j] == dvs[j]@);
                        }
                    }
                    assert(self@ =~= ds.update(i as int, assigned_directive(key@, value@)));
                    assert forall|j: int| 0 <= j < i implies !key_at(self@, j, key@) by {
                        assert(self@[j] == ds[j]);
                        assert(!key_at(ds, j, key@));
                    }
                    assert(key_at(self@, i as int, key@));
                    lemma_first_match_boundary(self@, key@, i as int);
                    assert forall|k: int| 0 <= k < self@.len() implies directive_wf(
                        #[trigger] self@[k],
                    ) by {
                        if k != i as int {
                            assert(self@[k] == ds[k]);
                        }
                    }
                }
                return ;
            }
            proof {
                assert(!key_at(ds, i as int, key@));
            }
            i = i + 1;
        }
        proof {
            lemma_first_match_boundary(ds, key@, n as int);
        }
        let ghost dvs = self.directives@;
        self.directives.push(d);
        proof {
            assert(self.directives@ == dvs.push(d));
            assert(self@.len() == ds.len() + 1);
            assert forall|j: int| 0 <= j < self@.len() implies self@[j] == ds.push(
                assigned_directive(key@, value@),
            )[j] by {
                assert(self@[j] == self.directives@[j]@);
                if j < n {
                    assert(self.directives@[j] == dvs[j]);
                    assert(ds[j] == dvs[j]@);
                } else {
                    assert(self.directives@[j] == d);
                }
            }
            assert(self@ =~= ds.push(assigned_directive(key@, value@)));
            assert forall|j: int| 0 <= j < n implies !key_at(self@, j, key@) by {
                assert(self@[j] == ds[j]);
                assert(!key_at(ds, j, key@));
            }
            assert(key_at(self@, n as int, key@));
            lemma_first_match_boundary(self@, key@, n as int);
            assert forall|k: int| 0 <= k < self@.len() implies directive_wf(
                #[trigger] self@[k],
            ) by {
                if k != n as int {
                    assert(self@[k] == ds[k]);
                }
            }
        }
    }

    /// Index of the first bare directive holding `ident`, if any.
    fn find_bare(&self, ident: &str) -> (r: Option<usize>)
        ensures
            match r {
                Some(i) => i == first_bare_idx(self@, ident@) && i < self@.len(),
                None => first_bare_idx(self@, ident@) >= self@.len(),
            },
    {
        let n = self.directives.len();
        let mut i: usize = 0;
        while i < n
            invariant
                n == self@.len(),
                i <= n,
                forall|j: int| 0 <= j < i ==> !bare_at(self@, j, ident@),
            decreases n - i,
        {
            let dir = &self.directives[i];
            let hit = !dir.has_assignment && !raw_line_check(dir.raw_text.as_str()) && str_eq(
                dir.value.as_str(),
                ident,
            );
            if hit {
                proof {
                    lemma_first_bare_boundary(self@, ident@, i as int);
                }
                return Some(i);
            }
            proof {
                assert(!bare_at(self@, i as int, ident@));
            }
            i = i + 1;
        }
        proof {
            lemma_first_bare_boundary(self@, ident@, n as int);
        }
        None
    }

    /// The document's text with a boot entry's backing directive (the first
    /// bare line holding `ident`) left out; the flag says whether one was
    /// found. The document itself is untouched.
    #[verifier::loop_isolation(false)]
    pub fn serialize_without_bare(&self, ident: &str) -> (r: (bool, String))
        requires
            self.wf(),
        ensures
            r.0 == (first_bare_idx(self@, ident@) < self@.len()),
            r.1@ == serialize_doc(remove_backing(self@, ident@)),
    {
        let ghost ds = self@;
        match self.find_bare(ident) {
            None => (false, self.serialize()),
            Some(i) => {
                proof {
                    ds.remove_ensures(i as int);
                }
                let ghost ds2 = ds.remove(i as int);
                let n = self.directives.len();
                let mut dirs2: Vec<Directive> = Vec::new();
                let mut j: usize = 0;
                while j < n
                    invariant
                        ds == self@,
                        self.wf(),
                        n == ds.len(),
                        i < n,
                        j <= n,
                        ds2 == ds.remove(i as int),
                        dirs2@.map_values(|d: Directive| d@) == ds2.take(
                            if j <= i {
                                j as int
                            } else {
                                j - 1
                            },
                        ),
                    decreases n - j,
                {
                    if j != i {
                        let c = clone_directive(&self.directives[j]);
                        dirs2.push(c);
                        proof {
                            let count = if j < i {
                                j as int
                            } else {
                                j - 1
                            };
                            assert(ds2[count] == ds[j as int]);
                            assert(ds2.take(count + 1) =~= ds2.take(count).push(ds2[count]));
                            assert(dirs2@.map_values(|d: Directive| d@) =~= ds2.take(count + 1));
                        }
                    }
                    j = j + 1;
                }
                proof {
                    assert(ds2.take(n - 1) =~= ds2);
                }
                if dirs2.len() == 0 {
                    proof {
                        assert(ds2.len() == 0);
                        assert(Seq::new(ds2.len(), |k: int| serialize_line(ds2[k]))
                            =~= Seq::<Seq<char>>::empty());
                        assert(serialize_doc(ds2) == Seq::<char>::empty());
                    }
                    (true, String::new())
                } else {
                    let doc2 = DirectiveDocument { directives: dirs2 };
                    proof {
                        assert(doc2@ == ds2);
                        assert forall|k: int| 0 <= k < ds2.len() implies directive_wf(
                            #[trigger] ds2[k],
                        ) by {
                            if k < i {
                                assert(ds2[k] == ds[k]);
                            } else {
                                assert(ds2[k] == ds[k + 1]);
                            }
                        }
                        assert(doc2.wf());
                    }
                    (true, doc2.serialize())
                }
            },
        }
    }

    /// The `(key, value)` assignment pairs, in document order, duplicates
    /// included.
    pub fn all_pairs(&self) -> (r: Vec<(String, String)>)
        requires
            self.wf(),
        ensures
            r@.map_values(|p: (String, String)| (p.0@, p.1@)) == pairs_of(self@),
    {
        let ghost ds = self@;
        let mut out: Vec<(String, String)> = Vec::new();
        let n = self.directives.len();
        let mut i: usize = 0;
        proof {
            assert(ds.skip(0) =~= ds);
            assert(out@.map_values(|p: (String, String)| (p.0@, p.1@)) + pairs_of(ds)
                =~= pairs_of(ds));
        }
        while i < n
            invariant
                self.wf(),
                ds == self@,
                n == ds.len(),
                i <= n,
                pairs_of(ds) == out@.map_values(|p: (String, String)| (p.0@, p.1@)) + pairs_of(
                    ds.skip(i as int),
                ),
            decreases n - i,
        {
            proof {
                assert(ds.skip(i as int).len() > 0);
                assert(ds.skip(i as int)[0] == ds[i as int]);
                assert(ds.skip(i as int).drop_first() =~= ds.skip(i + 1));
            }
            let dir = &self.directives[i];
            if dir.has_assignment {
                proof {
                    assert(directive_wf(ds[i as int]));
                }
                let k0 = match &dir.key {
                    Some(k0) => k0.clone(),
                    None => String::new(),
                };
                out.push((k0, dir.value.clone()));
                proof {
                    assert(out@.map_values(|p: (String, String)| (p.0@, p.1@))
                        =~= out@.drop_last().map_values(|p: (String, String)| (p.0@, p.1@)).push(
                        (ds[i as int].key.unwrap(), ds[i as int].value),
                    ));
                    assert(pairs_of(ds) =~= out@.map_values(|p: (String, String)| (p.0@, p.1@))
                        + pairs_of(ds.skip(i + 1)));
                }
            } else {
                proof {
                    assert(pairs_of(ds.skip(i as int)) == pairs_of(ds.skip(i + 1)));
                }
            }
            i = i + 1;
        }
        proof {
            assert(ds.skip(n as int) =~= Seq::<DirectiveModel>::empty());
            assert(pairs_of(ds) =~= out@.map_values(|p: (String, String)| (p.0@, p.1@)));
        }
        out
    }
}

} // verus!
