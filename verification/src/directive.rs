//! One logical line of the configuration file.
//!
//! A line is classified as a raw passthrough (blank line or comment), a
//! `KEY=VALUE` assignment (quotes stripped, the original quoting style
//! recorded), or a bare value line. Malformed-but-representable lines are
//! preserved verbatim; parsing fails only on text the format cannot
//! represent (an unterminated quote).

use vstd::prelude::*;
use vstd::string::StrSliceExecFns;

verus! {

/// Quoting style of an assignment's value, as found in the source line and
/// reproduced on serialization.
#[derive(Clone, Copy, PartialEq, Eq, Structural, Debug)]
pub enum QuoteStyle {
    Unquoted,
    Double,
    Single,
}

/// One logical line of the configuration file.
///
/// `raw_text` holds the exact source line; for an assignment directive it is
/// kept equal to the canonical form `key=value` (with the recorded quoting
/// applied), so serializing a directive always reproduces its line.
pub struct Directive {
    pub key: Option<String>,
    pub value: String,
    pub raw_text: String,
    pub has_assignment: bool,
    pub quote_style: QuoteStyle,
}

/// Mathematical model of a [`Directive`]: the same fields over sequences of
/// characters.
pub ghost struct DirectiveModel {
    pub key: Option<Seq<char>>,
    pub value: Seq<char>,
    pub raw_text: Seq<char>,
    pub has_assignment: bool,
    pub quote_style: QuoteStyle,
}

impl View for Directive {
    type V = DirectiveModel;

    open spec fn view(&self) -> DirectiveModel {
        DirectiveModel {
            key: match self.key {
                Some(k) => Some(k@),
                None => None,
            },
            value: self.value@,
            raw_text: self.raw_text@,
            has_assignment: self.has_assignment,
            quote_style: self.quote_style,
        }
    }
}

/// Horizontal whitespace inside a line.
pub open spec fn is_space(c: char) -> bool {
    c == ' ' || c == '\t' || c == '\r'
}

/// The line with its leading horizontal whitespace removed.
pub open spec fn lstrip(l: Seq<char>) -> Seq<char>
    decreases l.len(),
{
    if l.len() > 0 && is_space(l[0]) {
        lstrip(l.drop_first())
    } else {
        l
    }
}

/// A blank line or a comment: passed through untouched by the parser.
pub open spec fn is_raw_line(l: Seq<char>) -> bool {
    lstrip(l).len() == 0 || lstrip(l)[0] == '#'
}

/// Characters a key may start with.
pub open spec fn is_key_start(c: char) -> bool {
    ('a' <= c && c <= 'z') || ('A' <= c && c <= 'Z') || c == '_'
}

/// Characters a key may contain.
pub open spec fn is_key_char(c: char) -> bool {
    is_key_start(c) || ('0' <= c && c <= '9')
}

/// A well-shaped directive key.
pub open spec fn valid_key(k: Seq<char>) -> bool {
    &&& k.len() >= 1
    &&& is_key_start(k[0])
    &&& forall|i: int| 0 <= i < k.len() ==> is_key_char(#[trigger] k[i])
}

/// Length of the longest prefix of the line made of key characters.
pub open spec fn key_prefix_len(l: Seq<char>) -> nat
    decreases l.len(),
{
    if l.len() > 0 && is_key_char(l[0]) {
        1 + key_prefix_len(l.drop_first())
    } else {
        0
    }
}

/// Whether the line has the shape `KEY=...`: a nonempty run of key
/// characters starting with a key-start character, immediately followed by
/// `=`.
pub open spec fn has_assignment_shape(l: Seq<char>) -> bool {
    &&& l.len() > 0
    &&& is_key_start(l[0])
    &&& key_prefix_len(l) < l.len()
    &&& l[key_prefix_len(l) as int] == '='
}

/// Classifies the text after the `=`: a double- or single-quoted value has
/// its quotes stripped; a value that opens a quote without closing it cannot
/// be represented and yields `None`; anything else is taken unquoted.
pub open spec fn parse_value(v: Seq<char>) -> Option<(QuoteStyle, Seq<char>)> {
    if v.len() >= 2 && v[0] == '"' && v[v.len() - 1] == '"' {
        Some((QuoteStyle::Double, v.subrange(1, v.len() - 1)))
    } else if v.len() >= 2 && v[0] == '\'' && v[v.len() - 1] == '\'' {
        Some((QuoteStyle::Single, v.subrange(1, v.len() - 1)))
    } else if v.len() >= 1 && (v[0] == '"' || v[0] == '\'') {
        None
    } else {
        Some((QuoteStyle::Unquoted, v))
    }
}

/// The value as it stands in the line: quotes restored around it according
/// to the recorded style.
pub open spec fn wrap_value(st: QuoteStyle, v: Seq<char>) -> Seq<char> {
    match st {
        QuoteStyle::Unquoted => v,
        QuoteStyle::Double => seq!['"'] + v + seq!['"'],
        QuoteStyle::Single => seq!['\''] + v + seq!['\''],
    }
}

/// How one parsed line reads back as text.
pub open spec fn serialize_line(d: DirectiveModel) -> Seq<char> {
    if d.has_assignment {
        d.key.unwrap() + seq!['='] + wrap_value(d.quote_style, d.value)
    } else {
        d.raw_text
    }
}

/// Parses one line (no newline in it) into a directive; `None` only on an
/// unterminated quote.
pub open spec fn parse_line(l: Seq<char>) -> Option<DirectiveModel> {
    if is_raw_line(l) {
        Some(DirectiveModel {
            key: None,
            value: l,
            raw_text: l,
            has_assignment: false,
            quote_style: QuoteStyle::Unquoted,
        })
    } else if has_assignment_shape(l) {
        let k = l.take(key_prefix_len(l) as int);
        match parse_value(l.skip(key_prefix_len(l) as int + 1)) {
            Some((st, v)) => Some(DirectiveModel {
                key: Some(k),
                value: v,
                raw_text: l,
                has_assignment: true,
                quote_style: st,
            }),
            None => None,
        }
    } else {
        Some(DirectiveModel {
            key: None,
            value: l,
            raw_text: l,
            has_assignment: false,
            quote_style: QuoteStyle::Unquoted,
        })
    }
}

/// No line break inside the text.
pub open spec fn no_newline(s: Seq<char>) -> bool {
    forall|i: int| 0 <= i < s.len() ==> #[trigger] s[i] != '\n'
}

/// Well-formedness of a directive: serializing it reproduces a single line
/// that parses back to the same directive. Parsing establishes it; `set`
/// preserves it.
pub open spec fn directive_wf(d: DirectiveModel) -> bool {
    &&& no_newline(d.raw_text)
    &&& no_newline(d.value)
    &&& if d.has_assignment {
        &&& d.key is Some
        &&& valid_key(d.key.unwrap())
        &&& (d.quote_style == QuoteStyle::Unquoted ==> (d.value.len() == 0 || (d.value[0]
            != '"' && d.value[0] != '\'')))
        &&& d.raw_text == serialize_line(d)
    } else {
        &&& d.key is None
        &&& d.value == d.raw_text
        &&& d.quote_style == QuoteStyle::Unquoted
        &&& (is_raw_line(d.raw_text) || !has_assignment_shape(d.raw_text))
    }
}

/// Exec mirror of [`is_space`].
pub fn space_char(c: char) -> (r: bool)
    ensures
        r == is_space(c),
{
    c == ' ' || c == '\t' || c == '\r'
}

/// Exec mirror of [`is_key_start`].
pub fn key_start_char(c: char) -> (r: bool)
    ensures
        r == is_key_start(c),
{
    ('a' <= c && c <= 'z') || ('A' <= c && c <= 'Z') || c == '_'
}

/// Exec mirror of [`is_key_char`].
pub fn key_char(c: char) -> (r: bool)
    ensures
        r == is_key_char(c),
{
    key_start_char(c) || ('0' <= c && c <= '9')
}

/// Exec mirror of [`is_raw_line`].
pub fn raw_line_check(s: &str) -> (r: bool)
    ensures
        r == is_raw_line(s@),
{
    let n = s.unicode_len();
    let mut i: usize = 0;
    while i < n && space_char(s.get_char(i))
        invariant
            i <= n,
            n == s@.len(),
            forall|j: int| 0 <= j < i ==> is_space(#[trigger] s@[j]),
        decreases n - i,
    {
        i = i + 1;
    }
    proof {
        lemma_lstrip_boundary(s@, i as int);
    }
    i == n || s.get_char(i) == '#'
}

/// Exec mirror of [`valid_key`], so callers can test a key before `set`.
pub fn valid_key_check(s: &str) -> (r: bool)
    ensures
        r == valid_key(s@),
{
    let n = s.unicode_len();
    if n == 0 || !key_start_char(s.get_char(0)) {
        return false;
    }
    let mut i: usize = 0;
    while i < n
        invariant
            n == s@.len(),
            i <= n,
            forall|j: int| 0 <= j < i ==> is_key_char(#[trigger] s@[j]),
        decreases n - i,
    {
        if !key_char(s.get_char(i)) {
            return false;
        }
        i = i + 1;
    }
    true
}

/// Exec mirror of [`no_newline`], so callers can test a value before `set`.
pub fn single_line_check(s: &str) -> (r: bool)
    ensures
        r == no_newline(s@),
{
    let n = s.unicode_len();
    let mut i: usize = 0;
    while i < n
        invariant
            n == s@.len(),
            i <= n,
            forall|j: int| 0 <= j < i ==> #[trigger] s@[j] != '\n',
        decreases n - i,
    {
        if s.get_char(i) == '\n' {
            return false;
        }
        i = i + 1;
    }
    true
}

pub proof fn lemma_lstrip_boundary(l: Seq<char>, n: int)
    requires
        0 <= n <= l.len(),
        forall|i: int| 0 <= i < n ==> is_space(#[trigger] l[i]),
        n < l.len() ==> !is_space(l[n]),
    ensures
        lstrip(l) == l.skip(n),
    decreases n,
{
    if n == 0 {
        assert(l.skip(0) =~= l);
    } else {
        lemma_lstrip_boundary(l.drop_first(), n - 1);
        assert(l.drop_first().skip(n - 1) =~= l.skip(n));
    }
}

pub proof fn lemma_key_prefix_boundary(l: Seq<char>, n: int)
    requires
        0 <= n <= l.len(),
        forall|i: int| 0 <= i < n ==> is_key_char(#[trigger] l[i]),
        n < l.len() ==> !is_key_char(l[n]),
    ensures
        key_prefix_len(l) == n,
    decreases n,
{
    if n == 0 {
    } else {
        lemma_key_prefix_boundary(l.drop_first(), n - 1);
    }
}

pub proof fn lemma_key_prefix_chars(l: Seq<char>)
    ensures
        key_prefix_len(l) <= l.len(),
        forall|i: int| 0 <= i < key_prefix_len(l) ==> is_key_char(#[trigger] l[i]),
        key_prefix_len(l) < l.len() ==> !is_key_char(l[key_prefix_len(l) as int]),
    decreases l.len(),
{
    if l.len() > 0 && is_key_char(l[0]) {
        lemma_key_prefix_chars(l.drop_first());
        assert(key_prefix_len(l) == 1 + key_prefix_len(l.drop_first()));
        assert forall|i: int| 0 <= i < key_prefix_len(l) implies is_key_char(
            #[trigger] l[i],
        ) by {
            if i > 0 {
                assert(l.drop_first()[i - 1] == l[i]);
            }
        }
        if key_prefix_len(l) < l.len() {
            assert(l.drop_first()[key_prefix_len(l) as int - 1] == l[key_prefix_len(l) as int]);
        }
    }
}

/// A well-formed directive reads back from its own line: serialization
/// yields a single line, and parsing that line returns the directive
/// unchanged.
pub proof fn lemma_line_round_trip(d: DirectiveModel)
    requires
        directive_wf(d),
    ensures
        no_newline(serialize_line(d)),
        parse_line(serialize_line(d)) == Some(d),
{
    if !d.has_assignment {
        assert(serialize_line(d) == d.raw_text);
    } else {
        let k = d.key.unwrap();
        let v = d.value;
        let w = wrap_value(d.quote_style, v);
        let s = serialize_line(d);
        assert(s == k + seq!['='] + w);
        assert(forall|i: int| 0 <= i < k.len() ==> s[i] == k[i]);
        assert(s[k.len() as int] == '=');
        assert(forall|i: int| 0 <= i < w.len() ==> s[k.len() + 1 + i] == w[i]);
        assert forall|i: int| 0 <= i < s.len() implies #[trigger] s[i] != '\n' by {
            if i < k.len() {
                assert(is_key_char(k[i]));
            } else if i > k.len() {
                match d.quote_style {
                    QuoteStyle::Unquoted => {
                        assert(s[i] == v[i - k.len() - 1]);
                    },
                    QuoteStyle::Double => {
                        if i - k.len() - 1 > 0 && i < s.len() - 1 {
                            assert(s[i] == v[i - k.len() - 2]);
                        }
                    },
                    QuoteStyle::Single => {
                        if i - k.len() - 1 > 0 && i < s.len() - 1 {
                            assert(s[i] == v[i - k.len() - 2]);
                        }
                    },
                }
            }
        }
        // not a raw line: it starts with a key-start character
        assert(s[0] == k[0]);
        assert(!is_space(s[0]) && s[0] != '#');
        assert(lstrip(s) == s);
        assert(!is_raw_line(s));
        // the key prefix stops exactly at the `=`
        lemma_key_prefix_boundary(s, k.len() as int);
        assert(has_assignment_shape(s));
        assert(s.take(k.len() as int) =~= k);
        let w2 = s.skip(k.len() as int + 1);
        assert(w2 =~= w);
        match d.quote_style {
            QuoteStyle::Unquoted => {
                assert(parse_value(w) == Some((QuoteStyle::Unquoted, v)));
            },
            QuoteStyle::Double => {
                assert(w[0] == '"' && w[w.len() - 1] == '"');
                assert(w.subrange(1, w.len() - 1) =~= v);
            },
            QuoteStyle::Single => {
                assert(w[0] == '\'' && w[w.len() - 1] == '\'');
                assert(w.subrange(1, w.len() - 1) =~= v);
            },
        }
        assert(parse_line(s) == Some(d));
    }
}

/// Parsing a single line yields a well-formed directive whose serialization
/// is that very line: the parser is lossless, byte for byte.
pub proof fn lemma_parse_line_lossless(l: Seq<char>)
    requires
        no_newline(l),
        parse_line(l) is Some,
    ensures
        directive_wf(parse_line(l).unwrap()),
        serialize_line(parse_line(l).unwrap()) == l,
{
    if is_raw_line(l) {
    } else if has_assignment_shape(l) {
        let n = key_prefix_len(l) as int;
        let k = l.take(n);
        let w = l.skip(n + 1);
        lemma_key_prefix_chars(l);
        assert(valid_key(k));
        let (st, v) = parse_value(w).unwrap();
        let d = parse_line(l).unwrap();
        assert(no_newline(v)) by {
            assert(forall|i: int| 0 <= i < w.len() ==> w[i] == l[n + 1 + i]);
            match st {
                QuoteStyle::Unquoted => {},
                QuoteStyle::Double => {},
                QuoteStyle::Single => {},
            }
        }
        assert(wrap_value(st, v) =~= w);
        assert(serialize_line(d) =~= l);
        assert(directive_wf(d));
    } else {
    }
}

} // verus!
