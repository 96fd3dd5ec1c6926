//! Properties of the token stream as a whole.
use vstd::prelude::*;
use crate::scanner::{
    classify, lemma_skip_ws_bounds, lemma_step_bounds, scan_lexeme, scan_number, scan_string, skip_ws,
    step,
    tokens_from, word_end, Step,
};
use crate::text::{is_alnum, is_ascii_digit, is_ascii_letter, is_num, is_ws, lower_of};
use crate::scanner::{next_spec, LexError, LexErrorKind, ScanState};
use crate::token::{Token, TokenType};

verus! {

/// The texts of all tokens but the last (the end marker).
pub open spec fn lexeme_texts(toks: Seq<(TokenType, Seq<char>)>) -> Seq<Seq<char>> {
    toks.drop_last().map_values(|t: (TokenType, Seq<char>)| t.1)
}

/// `gaps[0] + texts[0] + gaps[1] + ... + texts[n - 1] + gaps[n]`.
pub open spec fn weave(gaps: Seq<Seq<char>>, texts: Seq<Seq<char>>) -> Seq<char>
    decreases texts.len(),
{
    if texts.len() == 0 {
        if gaps.len() > 0 {
            gaps[0]
        } else {
            Seq::empty()
        }
    } else {
        gaps[0] + texts[0] + weave(gaps.drop_first(), texts.drop_first())
    }
}

pub open spec fn all_ws(s: Seq<char>) -> bool {
    forall|i: int| 0 <= i < s.len() ==> is_ws(#[trigger] s[i])
}

/// A scan that ends without a fault ends with the end marker, whose text is
/// empty; and between the texts of the tokens before it lies nothing but
/// whitespace: interleaving them with the returned whitespace runs gives back
/// the scanned input exactly, so no text is dropped or altered.
pub proof fn lemma_round_trip(src: Seq<char>, kw: Map<Seq<char>, TokenType>, pos: nat) -> (gaps: Seq<
    Seq<char>,
>)
    requires
        pos <= src.len(),
        tokens_from(src, kw, pos).1 is None,
    ensures
        tokens_from(src, kw, pos).0.len() >= 1,
        tokens_from(src, kw, pos).0.last() == (TokenType::End, Seq::<char>::empty()),
        gaps.len() == tokens_from(src, kw, pos).0.len(),
        forall|i: int| 0 <= i < gaps.len() ==> all_ws(#[trigger] gaps[i]),
        weave(gaps, lexeme_texts(tokens_from(src, kw, pos).0)) == src.subrange(pos as int, src.len() as int),
    decreases src.len() - pos,
{
    lemma_step_bounds(src, kw, pos);
    lemma_skip_ws_bounds(src, pos as int);
    let p = skip_ws(src, pos as int);
    let gap = src.subrange(pos as int, p);
    assert(all_ws(gap));
    match step(src, kw, pos) {
        Step::End => {
            let gaps = seq![src.subrange(pos as int, src.len() as int)];
            assert(lexeme_texts(tokens_from(src, kw, pos).0).len() == 0);
            gaps
        },
        Step::Lexeme { kind, start, end } => {
            let rest = tokens_from(src, kw, end as nat);
            let rest_gaps = lemma_round_trip(src, kw, end as nat);
            let toks = tokens_from(src, kw, pos).0;
            let text = src.subrange(start, end);
            assert(toks == seq![(kind, text)] + rest.0);
            let texts = lexeme_texts(toks);
            assert(texts == seq![text] + lexeme_texts(rest.0));
            let gaps = seq![gap] + rest_gaps;
            assert(gaps.drop_first() == rest_gaps);
            assert(texts.drop_first() == lexeme_texts(rest.0));
            assert(src.subrange(pos as int, src.len() as int) == gap + text + src.subrange(
                end,
                src.len() as int,
            ));
            gaps
        },
        Step::Fault { .. } => {
            Seq::empty()
        },
    }
}

proof fn lemma_number_kind(src: Seq<char>, i: int, dot: bool)
    ensures
        scan_number(src, i, dot) is Ok ==> scan_number(src, i, dot)->Ok_0.0 == TokenType::Number,
    decreases src.len() - i,
{
    if 0 <= i < src.len() {
        lemma_number_kind(src, i + 1, dot);
        lemma_number_kind(src, i + 1, true);
    }
}

proof fn lemma_string_kind(src: Seq<char>, open: int, i: int)
    ensures
        scan_string(src, open, i) is Ok ==> scan_string(src, open, i)->Ok_0.0 == TokenType::String,
    decreases src.len() - i,
{
    if 0 <= i < src.len() {
        lemma_string_kind(src, open, i + 1);
    }
}

/// With a table that maps no key to the end-marker kind, the end marker is
/// only ever the last token.
pub proof fn lemma_end_marker_only_last(src: Seq<char>, kw: Map<Seq<char>, TokenType>, pos: nat)
    requires
        forall|k: Seq<char>| #[trigger] kw.contains_key(k) ==> kw[k] != TokenType::End,
    ensures
        forall|i: int|
            0 <= i < tokens_from(src, kw, pos).0.len() - 1 ==> (#[trigger] tokens_from(src, kw, pos).0[i]).0
                != TokenType::End,
        tokens_from(src, kw, pos).1 is Some ==> forall|i: int|
            0 <= i < tokens_from(src, kw, pos).0.len() ==> (#[trigger] tokens_from(src, kw, pos).0[i]).0
                != TokenType::End,
    decreases src.len() - pos,
{
    lemma_step_bounds(src, kw, pos);
    if let Step::Lexeme { kind, start, end } = step(src, kw, pos) {
        lemma_end_marker_only_last(src, kw, end as nat);
        let rest = tokens_from(src, kw, end as nat);
        let toks = tokens_from(src, kw, pos).0;
        assert(toks == seq![(kind, src.subrange(start, end))] + rest.0);
        lemma_number_kind(src, start + 1, false);
        lemma_string_kind(src, start, start + 1);
        assert(kind != TokenType::End);
        assert forall|i: int| 0 < i < toks.len() implies toks[i] == rest.0[i - 1] by {}
    }
}

/// Once a request has produced the end marker, or a fault, the next request
/// produces nothing and leaves the scanner as it was.
pub proof fn lemma_nothing_after_end(
    s: ScanState,
    t: ScanState,
    u: ScanState,
    r1: Option<Result<Token, LexError>>,
    r2: Option<Result<Token, LexError>>,
)
    requires
        !s.done,
        !(step(s.source, s.keywords, s.pos) is Lexeme),
        next_spec(s, t, r1),
        next_spec(t, u, r2),
    ensures
        r2 is None,
        u == t,
{
}

/// Whether a lexeme starting with `c` is scanned as a word.
pub open spec fn starts_word(c: char) -> bool {
    is_ascii_letter(c) || c == '_'
}

/// Whether a lexeme starting with `c` is looked up in the table as a symbol.
pub open spec fn starts_symbol(c: char) -> bool {
    !starts_word(c) && !is_ascii_digit(c) && c != '\'' && c != '<' && c != '>' && c != '!'
}

/// Words are classified by their lower-cased text alone: two words whose
/// texts fold to the same text get the same kind, whatever their case.
pub proof fn lemma_word_kind_ignores_case(
    src1: Seq<char>,
    pos1: nat,
    src2: Seq<char>,
    pos2: nat,
    kw: Map<Seq<char>, TokenType>,
)
    requires
        step(src1, kw, pos1) is Lexeme,
        step(src2, kw, pos2) is Lexeme,
        starts_word(src1[step(src1, kw, pos1)->start]),
        starts_word(src2[step(src2, kw, pos2)->start]),
        lower_of(src1.subrange(step(src1, kw, pos1)->start, step(src1, kw, pos1)->end)) == lower_of(
            src2.subrange(step(src2, kw, pos2)->start, step(src2, kw, pos2)->end),
        ),
    ensures
        step(src1, kw, pos1)->kind == step(src2, kw, pos2)->kind,
{
}

/// A symbol is looked up verbatim: it is scanned only if the table holds
/// its one character exactly, and then its kind is found from that entry.
pub proof fn lemma_symbol_exact(src: Seq<char>, kw: Map<Seq<char>, TokenType>, pos: nat)
    requires
        skip_ws(src, pos as int) < src.len(),
        starts_symbol(src[skip_ws(src, pos as int)]),
    ensures
        ({
            let p = skip_ws(src, pos as int);
            let c = src[p];
            &&& step(src, kw, pos) is Lexeme <==> kw.contains_key(seq![c])
            &&& step(src, kw, pos) is Lexeme ==> step(src, kw, pos)->kind == classify(
                kw,
                seq![c],
                kw[seq![c]],
            )
        }),
{
    lemma_skip_ws_bounds(src, pos as int);
    let p = skip_ws(src, pos as int);
    assert(src.subrange(p, p + 1) == seq![src[p]]);
}

/// A word: a letter or underscore, then alphanumerics.
pub open spec fn is_word_unit(u: Seq<char>) -> bool {
    &&& u.len() >= 1
    &&& starts_word(u[0])
    &&& forall|i: int| 1 <= i < u.len() ==> is_alnum(#[trigger] u[i])
}

/// A number: a digit, then numeric characters with at most one decimal point.
pub open spec fn is_number_unit(u: Seq<char>) -> bool {
    &&& u.len() >= 1
    &&& is_ascii_digit(u[0])
    &&& forall|i: int| 1 <= i < u.len() ==> is_num(#[trigger] u[i]) || u[i] == '.'
    &&& forall|i: int, j: int| 1 <= i < u.len() && 1 <= j < u.len() && #[trigger] u[i] == '.' && #[trigger] u[j] == '.' ==> i == j
}

/// A quoted string with no quote inside.
pub open spec fn is_string_unit(u: Seq<char>) -> bool {
    &&& u.len() >= 2
    &&& u[0] == '\''
    &&& u.last() == '\''
    &&& forall|i: int| 1 <= i < u.len() - 1 ==> #[trigger] u[i] != '\''
}

/// A comparison operator.
pub open spec fn is_operator_unit(u: Seq<char>) -> bool {
    ||| u == seq!['<']
    ||| u == seq!['>']
    ||| u == seq!['<', '=']
    ||| u == seq!['>', '=']
    ||| u == seq!['!', '=']
}

/// A symbol of the table.
pub open spec fn is_symbol_unit(u: Seq<char>, kw: Map<Seq<char>, TokenType>) -> bool {
    &&& u.len() == 1
    &&& starts_symbol(u[0])
    &&& !is_ws(u[0])
    &&& kw.contains_key(u)
}

/// One lexical unit of the grammar.
pub open spec fn is_unit(u: Seq<char>, kw: Map<Seq<char>, TokenType>) -> bool {
    is_word_unit(u) || is_number_unit(u) || is_string_unit(u) || is_operator_unit(u) || is_symbol_unit(u, kw)
}

/// A run of ASCII whitespace.
pub open spec fn is_separator(s: Seq<char>) -> bool {
    forall|i: int| 0 <= i < s.len() ==> is_ws(#[trigger] s[i]) && (s[i] as u32) < 128
}

/// `units[0] + seps[0] + units[1] + seps[1] + ...`.
pub open spec fn joined(units: Seq<Seq<char>>, seps: Seq<Seq<char>>) -> Seq<char>
    decreases units.len(),
{
    if units.len() == 0 || seps.len() == 0 {
        Seq::empty()
    } else {
        units[0] + seps[0] + joined(units.drop_first(), seps.drop_first())
    }
}

proof fn lemma_skip_ws_run(src: Seq<char>, a: int, b: int)
    requires
        0 <= a <= b <= src.len(),
        forall|j: int| a <= j < b ==> is_ws(#[trigger] src[j]),
        b == src.len() || !is_ws(src[b]),
    ensures
        skip_ws(src, a) == b,
    decreases b - a,
{
    if a < b {
        lemma_skip_ws_run(src, a + 1, b);
    }
}

proof fn lemma_word_end_run(src: Seq<char>, a: int, b: int)
    requires
        0 <= a <= b <= src.len(),
        forall|j: int| a <= j < b ==> is_alnum(#[trigger] src[j]),
        b == src.len() || !is_alnum(src[b]),
    ensures
        word_end(src, a) == b,
    decreases b - a,
{
    if a < b {
        lemma_word_end_run(src, a + 1, b);
    }
}

proof fn lemma_number_run(src: Seq<char>, a: int, b: int, dot: bool)
    requires
        0 <= a <= b <= src.len(),
        forall|j: int| a <= j < b ==> is_num(#[trigger] src[j]) || src[j] == '.',
        forall|i: int, j: int| a <= i < b && a <= j < b && #[trigger] src[i] == '.' && #[trigger] src[j] == '.' ==> i == j,
        dot ==> forall|j: int| a <= j < b ==> #[trigger] src[j] != '.',
        b == src.len() || (is_ws(src[b]) && !is_num(src[b])),
    ensures
        scan_number(src, a, dot) == Ok::<(TokenType, int), (LexErrorKind, int)>((TokenType::Number, b)),
    decreases b - a,
{
    if a < b {
        if is_num(src[a]) {
            lemma_number_run(src, a + 1, b, dot);
        } else {
            assert(src[a] == '.');
            lemma_number_run(src, a + 1, b, true);
        }
    }
}

proof fn lemma_string_run(src: Seq<char>, open: int, a: int, b: int)
    requires
        0 <= a < b <= src.len(),
        forall|j: int| a <= j < b - 1 ==> #[trigger] src[j] != '\'',
        src[b - 1] == '\'',
    ensures
        scan_string(src, open, a) == Ok::<(TokenType, int), (LexErrorKind, int)>((TokenType::String, b)),
    decreases b - a,
{
    if a < b - 1 {
        lemma_string_run(src, open, a + 1, b);
    }
}

/// A unit at `p`, followed by ASCII whitespace or the end, scans as itself.
proof fn lemma_unit_scans(src: Seq<char>, p: int, u: Seq<char>, kw: Map<Seq<char>, TokenType>)
    requires
        0 <= p,
        p + u.len() <= src.len(),
        src.subrange(p, p + u.len()) == u,
        is_unit(u, kw),
        p + u.len() == src.len() || (is_ws(src[p + u.len()]) && (src[p + u.len()] as u32) < 128),
    ensures
        !is_ws(src[p]),
        scan_lexeme(src, p, kw) is Ok,
        scan_lexeme(src, p, kw)->Ok_0.1 == p + u.len(),
{
    let e = p + u.len();
    assert forall|j: int| 0 <= j < u.len() implies src[p + j] == #[trigger] u[j] by {
        assert(src.subrange(p, e)[j] == src[p + j]);
    }
    assert(src[p] == u[0]);
    if is_word_unit(u) {
        assert forall|j: int| p + 1 <= j < e implies is_alnum(#[trigger] src[j]) by {
            assert(src[p + (j - p)] == u[j - p]);
        }
        lemma_word_end_run(src, p + 1, e);
    } else if is_number_unit(u) {
        assert forall|j: int| p + 1 <= j < e implies is_num(#[trigger] src[j]) || src[j] == '.' by {
            assert(src[p + (j - p)] == u[j - p]);
        }
        assert forall|i: int, j: int|
            p + 1 <= i < e && p + 1 <= j < e && #[trigger] src[i] == '.' && #[trigger] src[j] == '.' implies i == j by {
            assert(src[p + (i - p)] == u[i - p]);
            assert(src[p + (j - p)] == u[j - p]);
        }
        lemma_number_run(src, p + 1, e, false);
    } else if is_string_unit(u) {
        assert forall|j: int| p + 1 <= j < e - 1 implies #[trigger] src[j] != '\'' by {
            assert(src[p + (j - p)] == u[j - p]);
        }
        assert(src[p + (u.len() - 1)] == u[u.len() - 1]);
        lemma_string_run(src, p, p + 1, e);
    } else if is_operator_unit(u) {
        if u.len() == 2 {
            assert(src[p + 1] == u[1]);
        }
    } else {
        assert(seq![src[p]] == u);
    }
}

/// Input made of grammar units separated by ASCII whitespace scans without a
/// fault into one token per unit, in order and with the unit's text, followed
/// by the end marker: one token more than there are units.
pub proof fn lemma_units_scan(units: Seq<Seq<char>>, seps: Seq<Seq<char>>, kw: Map<Seq<char>, TokenType>)
    requires
        seps.len() == units.len(),
        forall|i: int| 0 <= i < units.len() ==> is_unit(#[trigger] units[i], kw),
        forall|i: int| 0 <= i < seps.len() ==> is_separator(#[trigger] seps[i]),
        forall|i: int| 0 <= i < seps.len() - 1 ==> (#[trigger] seps[i]).len() > 0,
    ensures
        tokens_from(joined(units, seps), kw, 0).1 is None,
        tokens_from(joined(units, seps), kw, 0).0.len() == units.len() + 1,
        forall|i: int| 0 <= i < units.len() ==> (#[trigger] tokens_from(joined(units, seps), kw, 0).0[i]).1 == units[i],
{
    let src = joined(units, seps);
    assert(src.subrange(0, src.len() as int) == src);
    lemma_units_from(src, 0, units, seps, kw);
}

proof fn lemma_units_from(
    src: Seq<char>,
    pos: nat,
    units: Seq<Seq<char>>,
    seps: Seq<Seq<char>>,
    kw: Map<Seq<char>, TokenType>,
)
    requires
        pos <= src.len(),
        src.subrange(pos as int, src.len() as int) == joined(units, seps),
        seps.len() == units.len(),
        forall|i: int| 0 <= i < units.len() ==> is_unit(#[trigger] units[i], kw),
        forall|i: int| 0 <= i < seps.len() ==> is_separator(#[trigger] seps[i]),
        forall|i: int| 0 <= i < seps.len() - 1 ==> (#[trigger] seps[i]).len() > 0,
    ensures
        tokens_from(src, kw, pos).1 is None,
        tokens_from(src, kw, pos).0.len() == units.len() + 1,
        forall|i: int| 0 <= i < units.len() ==> (#[trigger] tokens_from(src, kw, pos).0[i]).1 == units[i],
    decreases units.len(),
{
    if units.len() == 0 {
        assert(src.subrange(pos as int, src.len() as int).len() == 0);
        lemma_skip_ws_run(src, pos as int, pos as int);
    } else {
        let u = units[0];
        let sep = seps[0];
        let rest_units = units.drop_first();
        let rest_seps = seps.drop_first();
        let rest = joined(rest_units, rest_seps);
        let e: int = pos as int + u.len();
        let b: int = e + sep.len();
        let tail = src.subrange(pos as int, src.len() as int);
        assert(tail == u + sep + rest);
        assert(src.subrange(pos as int, e) == u) by {
            assert(src.subrange(pos as int, e) == tail.subrange(0, u.len() as int));
        }
        assert forall|j: int| e <= j < b implies #[trigger] src[j] == sep[j - e] by {
            assert(src[j] == tail[j - pos]);
        }
        assert(src.subrange(b, src.len() as int) == rest) by {
            assert(src.subrange(b, src.len() as int) == tail.subrange(b - pos, tail.len() as int));
        }
        if sep.len() > 0 {
            assert(src[e] == sep[0]);
        }
        assert(is_unit(units[0], kw));
        assert(is_separator(seps[0]));
        lemma_unit_scans(src, pos as int, u, kw);
        lemma_skip_ws_run(src, pos as int, pos as int);
        assert(step(src, kw, pos) == Step::Lexeme {
            kind: step(src, kw, pos)->kind,
            start: pos as int,
            end: e,
        });
        assert forall|i: int| 0 <= i < rest_units.len() implies is_unit(#[trigger] rest_units[i], kw) by {
            assert(rest_units[i] == units[i + 1]);
        }
        assert forall|i: int| 0 <= i < rest_seps.len() implies is_separator(#[trigger] rest_seps[i]) by {
            assert(rest_seps[i] == seps[i + 1]);
        }
        assert forall|i: int| 0 <= i < rest_seps.len() - 1 implies (#[trigger] rest_seps[i]).len() > 0 by {
            assert(rest_seps[i] == seps[i + 1]);
        }
        lemma_units_from(src, b as nat, rest_units, rest_seps, kw);
        // from the end of the unit, the separator is skipped
        if rest_units.len() > 0 {
            let v = rest_units[0];
            assert(is_unit(rest_units[0], kw));
            assert(rest == v + rest_seps[0] + joined(rest_units.drop_first(), rest_seps.drop_first()));
            assert(src[b] == rest[0]);
            assert(src[b] == v[0]);
            assert(!is_ws(v[0]));
        } else {
            assert(rest.len() == 0);
        }
        lemma_skip_ws_run(src, e, b);
        lemma_skip_ws_run(src, b, b);
        assert(step(src, kw, e as nat) == step(src, kw, b as nat));
        assert(tokens_from(src, kw, e as nat) == tokens_from(src, kw, b as nat));
        let toks = tokens_from(src, kw, pos).0;
        let rest_toks = tokens_from(src, kw, b as nat).0;
        assert(toks == seq![(step(src, kw, pos)->kind, u)] + rest_toks);
        assert forall|i: int| 0 <= i < units.len() implies (#[trigger] toks[i]).1 == units[i] by {
            if i > 0 {
                assert(toks[i] == rest_toks[i - 1]);
                assert(units[i] == rest_units[i - 1]);
            }
        }
    }
}

} // verus!
