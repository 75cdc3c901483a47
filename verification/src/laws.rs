//! The grammar's general laws, each proved once and for all over the abstract
//! model.  The executable parser's `feed` contract says its phase advances by
//! exactly `model::run`, so each law here carries over to the running code.

use vstd::prelude::*;

use crate::model::{
    decoded_byte, is_ascii_letter, is_hex_digit, run, start_phase, step, to_upper,
    version_literal, HttpSeen, Phase, UrlEncoded, AMPERSAND, CR, DOT, EQUALS, LF, PERCENT,
    QUESTION,
};

verus! {

/// Every byte of a sequence, upper-cased.
pub open spec fn upper_all(s: Seq<u8>) -> Seq<u8> {
    s.map_values(|b: u8| to_upper(b))
}

/// Fragmentation invariance: feeding an input in two fragments, from wherever
/// the first left off, reaches the same phase as feeding it whole.  Applied
/// inductively this covers every split, down to one byte per delivery.
pub proof fn lemma_fragmentation_invariance(ph: Phase, a: Seq<u8>, b: Seq<u8>)
    ensures
        run(run(ph, a), b) == run(ph, a + b),
{
    crate::model::lemma_run_append(ph, a, b);
}

/// All fragments of a delivery, in order, as one input.
pub open spec fn concat_all(frags: Seq<Seq<u8>>) -> Seq<u8>
    decreases frags.len(),
{
    if frags.len() == 0 {
        Seq::empty()
    } else {
        concat_all(frags.drop_last()) + frags.last()
    }
}

/// The phase reached by feeding the fragments one delivery at a time.
pub open spec fn run_all(ph: Phase, frags: Seq<Seq<u8>>) -> Phase
    decreases frags.len(),
{
    if frags.len() == 0 {
        ph
    } else {
        run(run_all(ph, frags.drop_last()), frags.last())
    }
}

/// Full fragmentation invariance: however a delivery is cut into fragments —
/// one byte at a time, a few at a time, or all at once — feeding the pieces
/// in order reaches exactly the phase of feeding the whole input at once.
pub proof fn lemma_any_fragmentation(ph: Phase, frags: Seq<Seq<u8>>)
    ensures
        run_all(ph, frags) == run(ph, concat_all(frags)),
    decreases frags.len(),
{
    if frags.len() > 0 {
        lemma_any_fragmentation(ph, frags.drop_last());
        crate::model::lemma_run_append(ph, concat_all(frags.drop_last()), frags.last());
    }
}

/// A method token of letters, however cased, parses to its upper-case form.
proof fn lemma_method_token_runs(tok: Seq<u8>)
    requires
        forall|i: int| 0 <= i < tok.len() ==> is_ascii_letter(#[trigger] tok[i]),
    ensures
        run(start_phase(), tok) == (Phase::InMethod { m: upper_all(tok) }),
    decreases tok.len(),
{
    if tok.len() == 0 {
        assert(upper_all(tok) =~= Seq::<u8>::empty());
    } else {
        lemma_method_token_runs(tok.drop_last());
        assert(upper_all(tok) =~= upper_all(tok.drop_last()).push(to_upper(tok.last())));
    }
}

/// Method tokens normalize: a request line whose method is written in any mix
/// of cases parses exactly as the one with the method upper-cased.
pub proof fn lemma_method_case_insensitive(tok: Seq<u8>, rest: Seq<u8>)
    requires
        forall|i: int| 0 <= i < tok.len() ==> is_ascii_letter(#[trigger] tok[i]),
    ensures
        run(start_phase(), tok + rest) == run(start_phase(), upper_all(tok) + rest),
{
    lemma_method_token_runs(tok);
    assert(forall|i: int|
        0 <= i < upper_all(tok).len() ==> is_ascii_letter(#[trigger] upper_all(tok)[i]));
    lemma_method_token_runs(upper_all(tok));
    assert(upper_all(upper_all(tok)) =~= upper_all(tok));
    crate::model::lemma_run_append(start_phase(), tok, rest);
    crate::model::lemma_run_append(start_phase(), upper_all(tok), rest);
}

/// A `%HL` escape with two hex digits adds exactly the one byte it stands
/// for to the path: `%2F` a slash, `%41` an `A`.
pub proof fn lemma_percent_escape_decodes(m: Seq<u8>, p: Seq<u8>, in_query: bool, h1: u8, h2: u8)
    requires
        is_hex_digit(h1),
        is_hex_digit(h2),
    ensures
        run(
            Phase::InPath { m, p, in_query, enc: UrlEncoded::Plain },
            seq![PERCENT, h1, h2],
        ) == (Phase::InPath { m, p: p.push(decoded_byte(h1, h2)), in_query, enc: UrlEncoded::Plain }),
{
    reveal_with_fuel(run, 4);
    let s = seq![PERCENT, h1, h2];
    assert(s.drop_last() =~= seq![PERCENT, h1]);
    assert(seq![PERCENT, h1].drop_last() =~= seq![PERCENT]);
    assert(seq![PERCENT].drop_last() =~= Seq::<u8>::empty());
}

/// A `%` escape whose second digit is not hex is fatal: `%2G` can never be
/// part of a path.
pub proof fn lemma_percent_escape_bad_digit(m: Seq<u8>, p: Seq<u8>, in_query: bool, h1: u8, b: u8)
    requires
        is_hex_digit(h1),
        !is_hex_digit(b),
    ensures
        run(Phase::InPath { m, p, in_query, enc: UrlEncoded::Plain }, seq![PERCENT, h1, b])
            == Phase::Failed,
{
    reveal_with_fuel(run, 4);
    let s = seq![PERCENT, h1, b];
    assert(s.drop_last() =~= seq![PERCENT, h1]);
    assert(seq![PERCENT, h1].drop_last() =~= seq![PERCENT]);
    assert(seq![PERCENT].drop_last() =~= Seq::<u8>::empty());
}

/// A bare `?` is legal exactly once: outside the query it enters the query
/// (and is kept as a path byte); inside the query a second `?` is fatal.
pub proof fn lemma_question_mark_once(m: Seq<u8>, p: Seq<u8>)
    ensures
        step(Phase::InPath { m, p, in_query: false, enc: UrlEncoded::Plain }, QUESTION)
            == (Phase::InPath { m, p: p.push(QUESTION), in_query: true, enc: UrlEncoded::Plain }),
        step(Phase::InPath { m, p, in_query: true, enc: UrlEncoded::Plain }, QUESTION)
            == Phase::Failed,
{
}

/// `&` and `=` are legal exactly when `?` has been seen: before the query
/// they are fatal, inside it they are ordinary path bytes.
pub proof fn lemma_query_separators(m: Seq<u8>, p: Seq<u8>)
    ensures
        step(Phase::InPath { m, p, in_query: false, enc: UrlEncoded::Plain }, AMPERSAND)
            == Phase::Failed,
        step(Phase::InPath { m, p, in_query: false, enc: UrlEncoded::Plain }, EQUALS)
            == Phase::Failed,
        step(Phase::InPath { m, p, in_query: true, enc: UrlEncoded::Plain }, AMPERSAND)
            == (Phase::InPath { m, p: p.push(AMPERSAND), in_query: true, enc: UrlEncoded::Plain }),
        step(Phase::InPath { m, p, in_query: true, enc: UrlEncoded::Plain }, EQUALS)
            == (Phase::InPath { m, p: p.push(EQUALS), in_query: true, enc: UrlEncoded::Plain }),
{
}

/// The version prefix `HTTP/1` is matched byte for byte, case-sensitively:
/// any other byte where the literal expects one is fatal.
pub proof fn lemma_version_prefix_mismatch(
    m: Seq<u8>,
    p: Seq<u8>,
    lit: nat,
    seen: HttpSeen,
    b: u8,
)
    requires
        lit < 6,
        b != version_literal()[lit as int],
    ensures
        step(Phase::InVersion { m, p, lit, seen }, b) == Phase::Failed,
{
}

/// An empty minor version is accepted: after the literal and its dot, `\r\n`
/// alone completes the request line.
pub proof fn lemma_empty_minor_version(m: Seq<u8>, p: Seq<u8>)
    ensures
        run(
            Phase::InVersion { m, p, lit: 6, seen: HttpSeen::Start },
            seq![DOT, CR, LF],
        ) == (Phase::Done { m, p }),
{
    reveal_with_fuel(run, 4);
    let s = seq![DOT, CR, LF];
    assert(s.drop_last() =~= seq![DOT, CR]);
    assert(seq![DOT, CR].drop_last() =~= seq![DOT]);
    assert(seq![DOT].drop_last() =~= Seq::<u8>::empty());
}

} // verus!
