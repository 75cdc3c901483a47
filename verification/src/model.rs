//! Abstract model of the request-line grammar: a deterministic byte-at-a-time
//! transition function over phases.  The executable parser's contracts state
//! that feeding bytes advances its abstract phase exactly by this function, so
//! every property of the grammar can be read off the model alone.

use vstd::prelude::*;

verus! {

/// ASCII bytes the grammar names.
pub const SP: u8 = 0x20;
pub const CR: u8 = 0x0D;
pub const LF: u8 = 0x0A;
pub const QUESTION: u8 = 0x3F;
pub const AMPERSAND: u8 = 0x26;
pub const EQUALS: u8 = 0x3D;
pub const PERCENT: u8 = 0x25;
pub const DOT: u8 = 0x2E;

/// Sub-state of the in-place percent decoder: outside an escape, just after
/// `%`, or after `%` and one hex digit whose value is remembered.
#[derive(Clone, Copy)]
pub enum UrlEncoded {
    Plain,
    SawPercent,
    SawOneDigit(u8),
}

/// Progress through the tail of the version token once the literal `HTTP/1`
/// has been matched: expecting the dot, inside the digit run, or after `\r`.
#[derive(Clone, Copy)]
pub enum HttpSeen {
    Start,
    Dot,
    Cr,
}

/// The abstract value of a parser: which token it is inside, the bytes of the
/// tokens finished so far (method case-folded, path percent-decoded), and the
/// sub-state of the token being read.
pub enum Phase {
    InMethod { m: Seq<u8> },
    InPath { m: Seq<u8>, p: Seq<u8>, in_query: bool, enc: UrlEncoded },
    InVersion { m: Seq<u8>, p: Seq<u8>, lit: nat, seen: HttpSeen },
    Done { m: Seq<u8>, p: Seq<u8> },
    Failed,
}

pub open spec fn is_ascii_letter(b: u8) -> bool {
    (0x61 <= b && b <= 0x7A) || (0x41 <= b && b <= 0x5A)
}

pub open spec fn is_ascii_digit(b: u8) -> bool {
    0x30 <= b && b <= 0x39
}

pub open spec fn to_upper(b: u8) -> u8 {
    if 0x61 <= b && b <= 0x7A {
        (b - 0x20) as u8
    } else {
        b
    }
}

pub open spec fn is_hex_digit(b: u8) -> bool {
    is_ascii_digit(b) || (0x61 <= b && b <= 0x66) || (0x41 <= b && b <= 0x46)
}

/// Numeric value of a hex digit; meaningful only when `is_hex_digit(b)`.
pub open spec fn hex_value(b: u8) -> u8 {
    if is_ascii_digit(b) {
        (b - 0x30) as u8
    } else if 0x61 <= b && b <= 0x66 {
        (b - 0x61 + 10) as u8
    } else {
        (b - 0x41 + 10) as u8
    }
}

/// The byte a `%HL` escape stands for.
pub open spec fn decoded_byte(hi: u8, lo: u8) -> u8 {
    (hex_value(hi) << 4) | hex_value(lo)
}

/// Path bytes that are legal outside any escape and outside the roles of
/// ` ? & = %`: ASCII alphanumerics and a fixed literal set.
pub open spec fn is_plain_path_byte(b: u8) -> bool {
    ||| is_ascii_letter(b)
    ||| is_ascii_digit(b)
    ||| b == 0x2F
    ||| b == 0x2D
    ||| b == 0x5F
    ||| b == DOT
    ||| b == 0x7E
    ||| b == 0x3A
    ||| b == 0x23
    ||| b == 0x5B
    ||| b == 0x5D
    ||| b == 0x21
    ||| b == 0x24
    ||| b == 0x28
    ||| b == 0x29
    ||| b == 0x2A
    ||| b == 0x2B
    ||| b == 0x2C
    ||| b == 0x3B
}

/// The mandatory version prefix.
pub open spec fn version_literal() -> Seq<u8> {
    seq![0x48, 0x54, 0x54, 0x50, 0x2F, 0x31]
}

/// One byte of input applied to a phase.  `Failed` is absorbing: no further
/// input can recover a connection.  `Done` is absorbing too: bytes after the
/// request line belong to the headers, which are outside this core.
pub open spec fn step(ph: Phase, b: u8) -> Phase {
    match ph {
        Phase::InMethod { m } => {
            if is_ascii_letter(b) {
                Phase::InMethod { m: m.push(to_upper(b)) }
            } else if b == SP {
                Phase::InPath { m, p: Seq::empty(), in_query: false, enc: UrlEncoded::Plain }
            } else {
                Phase::Failed
            }
        },
        Phase::InPath { m, p, in_query, enc } => {
            match enc {
                UrlEncoded::Plain => {
                    if b == SP {
                        Phase::InVersion { m, p, lit: 0, seen: HttpSeen::Start }
                    } else if b == QUESTION && !in_query {
                        Phase::InPath { m, p: p.push(b), in_query: true, enc }
                    } else if (b == AMPERSAND || b == EQUALS) && in_query {
                        Phase::InPath { m, p: p.push(b), in_query, enc }
                    } else if b == PERCENT {
                        Phase::InPath { m, p, in_query, enc: UrlEncoded::SawPercent }
                    } else if is_plain_path_byte(b) {
                        Phase::InPath { m, p: p.push(b), in_query, enc }
                    } else {
                        Phase::Failed
                    }
                },
                UrlEncoded::SawPercent => {
                    if is_hex_digit(b) {
                        Phase::InPath {
                            m,
                            p,
                            in_query,
                            enc: UrlEncoded::SawOneDigit(hex_value(b)),
                        }
                    } else {
                        Phase::Failed
                    }
                },
                UrlEncoded::SawOneDigit(hi) => {
                    if is_hex_digit(b) {
                        Phase::InPath {
                            m,
                            p: p.push(((hi << 4) | hex_value(b)) as u8),
                            in_query,
                            enc: UrlEncoded::Plain,
                        }
                    } else {
                        Phase::Failed
                    }
                },
            }
        },
        Phase::InVersion { m, p, lit, seen } => {
            if lit < 6 {
                if b == version_literal()[lit as int] {
                    Phase::InVersion { m, p, lit: (lit + 1) as nat, seen }
                } else {
                    Phase::Failed
                }
            } else {
                match seen {
                    HttpSeen::Start => {
                        if b == DOT {
                            Phase::InVersion { m, p, lit, seen: HttpSeen::Dot }
                        } else {
                            Phase::Failed
                        }
                    },
                    HttpSeen::Dot => {
                        if b == CR {
                            Phase::InVersion { m, p, lit, seen: HttpSeen::Cr }
                        } else if is_ascii_digit(b) {
                            Phase::InVersion { m, p, lit, seen }
                        } else {
                            Phase::Failed
                        }
                    },
                    HttpSeen::Cr => {
                        if b == LF {
                            Phase::Done { m, p }
                        } else {
                            Phase::Failed
                        }
                    },
                }
            }
        },
        Phase::Done { m, p } => Phase::Done { m, p },
        Phase::Failed => Phase::Failed,
    }
}

/// A whole input applied to a phase, left to right.
pub open spec fn run(ph: Phase, input: Seq<u8>) -> Phase
    decreases input.len(),
{
    if input.len() == 0 {
        ph
    } else {
        step(run(ph, input.drop_last()), input.last())
    }
}

/// The phase of a parser that has seen nothing.
pub open spec fn start_phase() -> Phase {
    Phase::InMethod { m: Seq::empty() }
}

/// `run` distributes over concatenation: running the second fragment from
/// where the first left off equals running the whole input at once.
pub proof fn lemma_run_append(ph: Phase, a: Seq<u8>, b: Seq<u8>)
    ensures
        run(ph, a + b) == run(run(ph, a), b),
    decreases b.len(),
{
    if b.len() == 0 {
        assert(a + b =~= a);
    } else {
        lemma_run_append(ph, a, b.drop_last());
        assert((a + b).drop_last() =~= a + b.drop_last());
        assert((a + b).last() == b.last());
    }
}

/// A failed parse stays failed, whatever arrives afterwards.
pub proof fn lemma_failed_absorbs(input: Seq<u8>)
    ensures
        run(Phase::Failed, input) == Phase::Failed,
    decreases input.len(),
{
    if input.len() > 0 {
        lemma_failed_absorbs(input.drop_last());
    }
}

/// A finished request line stays finished: later bytes are header bytes.
pub proof fn lemma_done_absorbs(m: Seq<u8>, p: Seq<u8>, input: Seq<u8>)
    ensures
        run(Phase::Done { m, p }, input) == (Phase::Done { m, p }),
    decreases input.len(),
{
    if input.len() > 0 {
        lemma_done_absorbs(m, p, input.drop_last());
    }
}

} // verus!
