//! The executable request-line parser: an incremental state machine over one
//! fixed buffer, which case-folds the method and percent-decodes the path in
//! place.  Every operation's contract states that the parser's abstract phase
//! advances exactly by `model::run` on the bytes it was handed.

use vstd::prelude::*;

use crate::model::{
    is_hex_digit, is_plain_path_byte, hex_value, run, step, version_literal,
    lemma_done_absorbs, lemma_failed_absorbs, lemma_run_append,
    HttpSeen, Phase, UrlEncoded, AMPERSAND, CR, DOT, EQUALS, LF, PERCENT, QUESTION, SP,
};

verus! {

/// Running a prefix into `Failed` fails the whole input.
proof fn lemma_fatal_prefix(ph0: Phase, input: Seq<u8>, k: int)
    requires
        0 <= k <= input.len(),
        run(ph0, input.take(k)) == Phase::Failed,
    ensures
        run(ph0, input) == Phase::Failed,
{
    lemma_run_append(ph0, input.take(k), input.skip(k));
    assert(input.take(k) + input.skip(k) =~= input);
    lemma_failed_absorbs(input.skip(k));
}

/// Unfolds `run` one byte at a time over a growing prefix.
proof fn lemma_run_snoc(ph0: Phase, input: Seq<u8>, k: int)
    requires
        0 <= k < input.len(),
    ensures
        run(ph0, input.take(k + 1)) == step(run(ph0, input.take(k)), input[k]),
{
    assert(input.take(k + 1).drop_last() =~= input.take(k));
    assert(input.take(k + 1).last() == input[k]);
}

/// The numeric value of an ASCII hex digit, or nothing.
fn hex_digit(b: u8) -> (r: Option<u8>)
    ensures
        r == (if is_hex_digit(b) {
            Option::Some(hex_value(b))
        } else {
            Option::None::<u8>
        }),
{
    if 0x30 <= b && b <= 0x39 {
        Option::Some(b - 0x30)
    } else if 0x61 <= b && b <= 0x66 {
        Option::Some(b - 0x61 + 10)
    } else if 0x41 <= b && b <= 0x46 {
        Option::Some(b - 0x41 + 10)
    } else {
        Option::None
    }
}

/// Whether a byte is legal in a path outside any escape and outside the
/// special roles of space, `?`, `&`, `=` and `%`.
fn path_byte_allowed(b: u8) -> (r: bool)
    ensures
        r == is_plain_path_byte(b),
{
    (0x61 <= b && b <= 0x7A) || (0x41 <= b && b <= 0x5A) || (0x30 <= b && b <= 0x39) || b == 0x2F
        || b == 0x2D || b == 0x5F || b == DOT || b == 0x7E || b == 0x3A || b == 0x23 || b == 0x5B
        || b == 0x5D || b == 0x21 || b == 0x24 || b == 0x28 || b == 0x29 || b == 0x2A || b == 0x2B
        || b == 0x2C || b == 0x3B
}

/// Copies `len` bytes from `src` down to `dst`, closing the gap a finished
/// token's terminator (or a decoded escape) left in the buffer.
fn shift_down(buf: &mut Vec<u8>, dst: usize, src: usize, len: usize)
    requires
        dst <= src,
        src + len <= old(buf)@.len(),
    ensures
        final(buf)@.len() == old(buf)@.len(),
        final(buf)@.subrange(dst as int, dst + len) == old(buf)@.subrange(src as int, src + len),
        forall|j: int|
            0 <= j < old(buf)@.len() && !(dst <= j < dst + len) ==> final(buf)@[j] == old(
                buf,
            )@[j],
{
    let n = buf.len();
    let mut k: usize = 0;
    while k < len
        invariant
            dst <= src,
            src + len <= n,
            n == buf@.len(),
            buf@.len() == old(buf)@.len(),
            k <= len,
            forall|j: int|
                0 <= j < buf@.len() && !(dst <= j < dst + k) ==> buf@[j] == old(buf)@[j],
            forall|j: int| 0 <= j < k ==> #[trigger] buf@[dst + j] == old(buf)@[src + j],
        decreases len - k,
    {
        let b = buf[src + k];
        buf[dst + k] = b;
        k += 1;
    }
    proof {
        assert forall|j: int| 0 <= j < len implies #[trigger] buf@.subrange(dst as int, dst + len)[j]
            == old(buf)@.subrange(src as int, src + len)[j] by {
            assert(buf@[dst + j] == old(buf)@[src + j]);
        }
        assert(buf@.subrange(dst as int, dst + len) =~= old(buf)@.subrange(
            src as int,
            src + len,
        ));
    }
}

/// Consumes path bytes from `buf[path_end..end]`, writing kept bytes (decoded
/// escapes included) contiguously from `path_end` on.  Returns the count of
/// input bytes consumed, the new end of the path, and whether the terminating
/// space was seen; or nothing on an illegal byte.  The contract ties all of it
/// to `model::run` from the phase the arguments describe.
pub fn eat_path(
    buf: &mut Vec<u8>,
    method_end: usize,
    path_end: usize,
    end: usize,
    in_query: &mut bool,
    encoded: &mut UrlEncoded,
) -> (r: Option<(usize, usize, bool)>)
    requires
        method_end <= path_end,
        path_end <= end,
        end <= old(buf)@.len(),
    ensures
        final(buf)@.len() == old(buf)@.len(),
        ({
            let w = old(buf)@.subrange(path_end as int, end as int);
            let ph0 = (Phase::InPath {
                m: old(buf)@.subrange(0, method_end as int),
                p: old(buf)@.subrange(method_end as int, path_end as int),
                in_query: *old(in_query),
                enc: *old(encoded),
            });
            &&& (r is None ==> run(ph0, w) == Phase::Failed)
            &&& (r matches Some((consumed, dst, done)) ==> {
                &&& path_end <= dst <= path_end + consumed
                &&& consumed <= end - path_end
                &&& (forall|j: int|
                    0 <= j < old(buf)@.len() && !(path_end <= j < dst) ==> final(buf)@[j] == old(
                        buf,
                    )@[j])
                &&& (!done ==> consumed == end - path_end && run(ph0, w) == (Phase::InPath {
                    m: final(buf)@.subrange(0, method_end as int),
                    p: final(buf)@.subrange(method_end as int, dst as int),
                    in_query: *final(in_query),
                    enc: *final(encoded),
                }))
                &&& (done ==> 1 <= consumed && run(ph0, w.take(consumed as int))
                    == (Phase::InVersion {
                    m: final(buf)@.subrange(0, method_end as int),
                    p: final(buf)@.subrange(method_end as int, dst as int),
                    lit: 0,
                    seen: HttpSeen::Start,
                }))
            })
        }),
{
    let ghost w = buf@.subrange(path_end as int, end as int);
    let ghost ph0 = (Phase::InPath {
        m: buf@.subrange(0, method_end as int),
        p: buf@.subrange(method_end as int, path_end as int),
        in_query: *in_query,
        enc: *encoded,
    });
    let mut src: usize = path_end;
    let mut dst: usize = path_end;
    while src < end
        invariant
            method_end <= path_end,
            path_end <= dst <= src <= end <= buf@.len(),
            buf@.len() == old(buf)@.len(),
            w == old(buf)@.subrange(path_end as int, end as int),
            ph0 == (Phase::InPath {
                m: old(buf)@.subrange(0, method_end as int),
                p: old(buf)@.subrange(method_end as int, path_end as int),
                in_query: *old(in_query),
                enc: *old(encoded),
            }),
            forall|j: int|
                0 <= j < buf@.len() && !(path_end <= j < dst) ==> buf@[j] == old(buf)@[j],
            run(ph0, w.take(src - path_end)) == (Phase::InPath {
                m: buf@.subrange(0, method_end as int),
                p: buf@.subrange(method_end as int, dst as int),
                in_query: *in_query,
                enc: *encoded,
            }),
        decreases end - src,
    {
        let b = buf[src];
        let ghost s0 = src - path_end;
        let ghost pre = buf@;
        let ghost q0 = *in_query;
        let ghost e0 = *encoded;
        proof {
            assert(w[s0] == b);
            lemma_run_snoc(ph0, w, s0);
        }
        match *encoded {
            UrlEncoded::Plain => {
                if b == SP {
                    proof {
                        assert(w.take(s0 + 1) =~= w.take(s0).push(b));
                    }
                    return Option::Some((src + 1 - path_end, dst, true));
                } else if b == QUESTION && !*in_query {
                    *in_query = true;
                    buf[dst] = b;
                    src += 1;
                    dst += 1;
                    proof {
                        assert(buf@.subrange(0, method_end as int) =~= pre.subrange(
                            0,
                            method_end as int,
                        ));
                        assert(buf@.subrange(method_end as int, dst as int) =~= pre.subrange(
                            method_end as int,
                            dst - 1,
                        ).push(b));
                    }
                } else if (b == AMPERSAND || b == EQUALS) && *in_query {
                    buf[dst] = b;
                    src += 1;
                    dst += 1;
                    proof {
                        assert(buf@.subrange(0, method_end as int) =~= pre.subrange(
                            0,
                            method_end as int,
                        ));
                        assert(buf@.subrange(method_end as int, dst as int) =~= pre.subrange(
                            method_end as int,
                            dst - 1,
                        ).push(b));
                    }
                } else if b == PERCENT {
                    *encoded = UrlEncoded::SawPercent;
                    src += 1;
                } else if path_byte_allowed(b) {
                    buf[dst] = b;
                    src += 1;
                    dst += 1;
                    proof {
                        assert(buf@.subrange(0, method_end as int) =~= pre.subrange(
                            0,
                            method_end as int,
                        ));
                        assert(buf@.subrange(method_end as int, dst as int) =~= pre.subrange(
                            method_end as int,
                            dst - 1,
                        ).push(b));
                    }
                } else {
                    proof {
                        lemma_fatal_prefix(ph0, w, s0 + 1);
                    }
                    return Option::None;
                }
            },
            UrlEncoded::SawPercent => {
                match hex_digit(b) {
                    Option::Some(d) => {
                        *encoded = UrlEncoded::SawOneDigit(d);
                        src += 1;
                    },
                    Option::None => {
                        proof {
                            lemma_fatal_prefix(ph0, w, s0 + 1);
                        }
                        return Option::None;
                    },
                }
            },
            UrlEncoded::SawOneDigit(hi) => {
                match hex_digit(b) {
                    Option::Some(lo) => {
                        let decoded = (hi << 4) | lo;
                        *encoded = UrlEncoded::Plain;
                        buf[dst] = decoded;
                        src += 1;
                        dst += 1;
                        proof {
                            assert(buf@.subrange(0, method_end as int) =~= pre.subrange(
                                0,
                                method_end as int,
                            ));
                            assert(buf@.subrange(method_end as int, dst as int) =~= pre.subrange(
                                method_end as int,
                                dst - 1,
                            ).push(decoded));
                        }
                    },
                    Option::None => {
                        proof {
                            lemma_fatal_prefix(ph0, w, s0 + 1);
                        }
                        return Option::None;
                    },
                }
            },
        }
    }
    proof {
        assert(w.take(end - path_end) =~= w);
    }
    Option::Some((end - path_end, dst, false))
}

/// One byte of the mandatory version prefix.
fn version_byte(i: usize) -> (b: u8)
    requires
        i < 6,
    ensures
        b == version_literal()[i as int],
{
    if i == 0 {
        0x48
    } else if i == 1 {
        0x54
    } else if i == 2 {
        0x54
    } else if i == 3 {
        0x50
    } else if i == 4 {
        0x2F
    } else {
        0x31
    }
}

/// State machine for parsing request lines.  Cursors index one fixed buffer:
/// `[0, method_end)` holds the (case-folded) method, `[method_end, path_end)`
/// the (percent-decoded) path, and newly read bytes are appended at
/// `used_space()`.
#[derive(Clone, Copy)]
pub enum RequestParser {
    /// Reading the method token; `method_end` bytes of it have arrived.
    Method { method_end: usize },
    /// Reading the path.
    Path { method_end: usize, path_end: usize, in_query: bool, encoded: UrlEncoded },
    /// Reading the version token, whose bytes occupy `[path_end, http_end)`.
    Http { method_end: usize, path_end: usize, http_end: usize, seen: HttpSeen },
    /// The request line was fully validated; bytes from `line_end` on belong
    /// to the headers, which are outside this core.
    Headers { method_end: usize, path_end: usize, line_end: usize },
}

impl RequestParser {
    /// The cursors lie inside the buffer and in order.
    pub open spec fn wf(self, buf: Seq<u8>) -> bool {
        match self {
            RequestParser::Method { method_end } => method_end <= buf.len(),
            RequestParser::Path { method_end, path_end, .. } => method_end <= path_end
                && path_end <= buf.len(),
            RequestParser::Http { method_end, path_end, http_end, seen } => method_end <= path_end
                && path_end <= http_end && http_end <= buf.len() && (seen is Start
                ==> http_end - path_end <= 6),
            RequestParser::Headers { method_end, path_end, line_end } => method_end <= path_end
                && path_end <= line_end && line_end <= buf.len(),
        }
    }

    /// The abstract phase this parser state and buffer stand for.
    pub open spec fn phase_at(self, buf: Seq<u8>) -> Phase {
        match self {
            RequestParser::Method { method_end } => Phase::InMethod {
                m: buf.subrange(0, method_end as int),
            },
            RequestParser::Path { method_end, path_end, in_query, encoded } => Phase::InPath {
                m: buf.subrange(0, method_end as int),
                p: buf.subrange(method_end as int, path_end as int),
                in_query,
                enc: encoded,
            },
            RequestParser::Http { method_end, path_end, http_end, seen } => Phase::InVersion {
                m: buf.subrange(0, method_end as int),
                p: buf.subrange(method_end as int, path_end as int),
                lit: if seen is Start {
                    (http_end - path_end) as nat
                } else {
                    6
                },
                seen,
            },
            RequestParser::Headers { method_end, path_end, .. } => Phase::Done {
                m: buf.subrange(0, method_end as int),
                p: buf.subrange(method_end as int, path_end as int),
            },
        }
    }

    /// A parser always stands for a live phase; only `run` can say `Failed`.
    pub proof fn lemma_phase_not_failed(self, buf: Seq<u8>)
        ensures
            self.phase_at(buf) != Phase::Failed,
    {
        match self {
            RequestParser::Method { .. } => {},
            RequestParser::Path { .. } => {},
            RequestParser::Http { .. } => {},
            RequestParser::Headers { .. } => {},
        }
    }

    pub open spec fn spec_used_space(self) -> usize {
        match self {
            RequestParser::Method { method_end } => method_end,
            RequestParser::Path { path_end, .. } => path_end,
            RequestParser::Http { http_end, .. } => http_end,
            RequestParser::Headers { line_end, .. } => line_end,
        }
    }

    /// Space in the buffer already consumed into parser state; newly read
    /// bytes are appended here.
    pub fn used_space(&self) -> (n: usize)
        ensures
            n == self.spec_used_space(),
    {
        match *self {
            RequestParser::Method { method_end } => method_end,
            RequestParser::Path { path_end, .. } => path_end,
            RequestParser::Http { http_end, .. } => http_end,
            RequestParser::Headers { line_end, .. } => line_end,
        }
    }

    /// Whether the request line has been fully validated.
    pub fn is_done(&self) -> (b: bool)
        ensures
            b == (*self is Headers),
    {
        match *self {
            RequestParser::Headers { .. } => true,
            _ => false,
        }
    }
}

impl RequestParser {
    /// Consumes at least one of the `read` new bytes waiting at
    /// `buf[used_space()..]`, advancing the abstract phase by exactly
    /// `model::run` on the consumed prefix and leaving the unconsumed suffix
    /// at the new `used_space()`.  Returns true when the input can never form
    /// a valid request line.
    #[verifier::loop_isolation(false)]
    #[verifier::rlimit(60)]
    pub fn feed_step(&mut self, buf: &mut Vec<u8>, read: &mut usize) -> (fatal: bool)
        requires
            old(self).wf(old(buf)@),
            1 <= *old(read),
            old(self).spec_used_space() + *old(read) <= old(buf)@.len(),
        ensures
            final(buf)@.len() == old(buf)@.len(),
            ({
                let u0 = old(self).spec_used_space() as int;
                let r0 = *old(read) as int;
                let input = old(buf)@.subrange(u0, u0 + r0);
                let ph0 = old(self).phase_at(old(buf)@);
                &&& (fatal ==> run(ph0, input) == Phase::Failed)
                &&& (!fatal ==> {
                    let consumed = r0 - *final(read);
                    let u1 = final(self).spec_used_space() as int;
                    &&& (*final(read) as int) < r0
                    &&& final(self).wf(final(buf)@)
                    &&& final(self).phase_at(final(buf)@) == run(ph0, input.take(consumed))
                    &&& u1 + *final(read) <= final(buf)@.len()
                    &&& final(buf)@.subrange(u1, u1 + *final(read)) == input.skip(consumed)
                })
            }),
    {
        let ghost r0 = *old(read) as int;
        let ghost input = old(buf)@.subrange(
            old(self).spec_used_space() as int,
            old(self).spec_used_space() + r0,
        );
        let ghost ph0 = old(self).phase_at(old(buf)@);
        let cap = buf.len();
        proof {
            // the whole window, hence every cursor sum below, fits in usize
            assert(old(self).spec_used_space() + *old(read) <= cap);
        }
        let cur = *self;
        match cur {
            RequestParser::Method { method_end: me } => {
                let end = me + *read;
                let mut i = me;
                while i < end
                    invariant
                        me <= i <= end <= buf@.len(),
                        end == me + r0,
                        buf@.len() == old(buf)@.len(),
                        input == old(buf)@.subrange(me as int, end as int),
                        ph0 == (Phase::InMethod { m: old(buf)@.subrange(0, me as int) }),
                        forall|j: int|
                            0 <= j < buf@.len() && !(me <= j < i) ==> buf@[j] == old(buf)@[j],
                        run(ph0, input.take(i - me)) == (Phase::InMethod {
                            m: buf@.subrange(0, i as int),
                        }),
                    decreases end - i,
                {
                    let b = buf[i];
                    let ghost pre = buf@;
                    let ghost k = i - me;
                    proof {
                        assert(input[k] == b);
                        lemma_run_snoc(ph0, input, k);
                    }
                    if 0x41 <= b && b <= 0x5A {
                        i += 1;
                        proof {
                            assert(buf@.subrange(0, i as int) =~= pre.subrange(0, i - 1).push(b));
                        }
                    } else if 0x61 <= b && b <= 0x7A {
                        buf[i] = b - 0x20;
                        i += 1;
                        proof {
                            assert(buf@.subrange(0, i as int) =~= pre.subrange(0, i - 1).push(
                                (b - 0x20) as u8,
                            ));
                        }
                    } else if b == SP {
                        let rem = end - (i + 1);
                        shift_down(buf, i, i + 1, rem);
                        *read = rem;
                        *self = RequestParser::Path {
                            method_end: i,
                            path_end: i,
                            in_query: false,
                            encoded: UrlEncoded::Plain,
                        };
                        proof {
                            assert(buf@.subrange(0, i as int) =~= pre.subrange(0, i as int));
                            assert(buf@.subrange(i as int, i as int) =~= Seq::<u8>::empty());
                            assert(buf@.subrange(i as int, i + rem) =~= input.skip(k + 1));
                        }
                        return false;
                    } else {
                        proof {
                            lemma_fatal_prefix(ph0, input, k + 1);
                        }
                        return true;
                    }
                }
                *self = RequestParser::Method { method_end: end };
                *read = 0;
                proof {
                    assert(input.take(r0) =~= input);
                    assert(buf@.subrange(end as int, end as int) =~= input.skip(r0));
                }
                false
            },
            RequestParser::Path { method_end: me, path_end: pe, in_query: q, encoded: enc } => {
                let end = pe + *read;
                let mut q2 = q;
                let mut enc2 = enc;
                proof {
                    assert(input =~= old(buf)@.subrange(pe as int, end as int));
                }
                let res = eat_path(buf, me, pe, end, &mut q2, &mut enc2);
                match res {
                    Option::None => true,
                    Option::Some((consumed, dst, done)) => {
                        if done {
                            let rem = *read - consumed;
                            let ghost mid = buf@;
                            shift_down(buf, dst, pe + consumed, rem);
                            *read = rem;
                            *self = RequestParser::Http {
                                method_end: me,
                                path_end: dst,
                                http_end: dst,
                                seen: HttpSeen::Start,
                            };
                            proof {
                                assert(buf@.subrange(0, me as int) =~= mid.subrange(0, me as int));
                                assert(buf@.subrange(me as int, dst as int) =~= mid.subrange(
                                    me as int,
                                    dst as int,
                                ));
                                assert(mid.subrange(pe + consumed, pe + consumed + rem)
                                    =~= input.skip(consumed as int));
                                assert(buf@.subrange(dst as int, dst + rem) =~= input.skip(
                                    consumed as int,
                                ));
                            }
                            false
                        } else {
                            *read = 0;
                            *self = RequestParser::Path {
                                method_end: me,
                                path_end: dst,
                                in_query: q2,
                                encoded: enc2,
                            };
                            proof {
                                assert(input.take(r0) =~= input);
                                assert(buf@.subrange(dst as int, dst as int) =~= input.skip(r0));
                            }
                            false
                        }
                    },
                }
            },
            RequestParser::Http { method_end: me, path_end: pe, http_end: he, seen } => {
                let end = he + *read;
                let mut i = he;
                let mut s = seen;
                while i < end
                    invariant
                        me <= pe <= he <= i <= end <= buf@.len(),
                        end == he + r0,
                        *read == *old(read),
                        buf@ == old(buf)@,
                        (s is Start ==> i - pe <= 6),
                        input == old(buf)@.subrange(he as int, end as int),
                        ph0 == old(self).phase_at(old(buf)@),
                        *old(self) == (RequestParser::Http {
                            method_end: me,
                            path_end: pe,
                            http_end: he,
                            seen,
                        }),
                        run(ph0, input.take(i - he)) == (Phase::InVersion {
                            m: old(buf)@.subrange(0, me as int),
                            p: old(buf)@.subrange(me as int, pe as int),
                            lit: if s is Start {
                                (i - pe) as nat
                            } else {
                                6
                            },
                            seen: s,
                        }),
                    decreases end - i,
                {
                    let b = buf[i];
                    let ghost k = i - he;
                    proof {
                        assert(input[k] == b);
                        lemma_run_snoc(ph0, input, k);
                    }
                    match s {
                        HttpSeen::Start => {
                            if i - pe < 6 {
                                if b == version_byte(i - pe) {
                                    i += 1;
                                } else {
                                    proof {
                                        lemma_fatal_prefix(ph0, input, k + 1);
                                    }
                                    return true;
                                }
                            } else {
                                if b == DOT {
                                    s = HttpSeen::Dot;
                                    i += 1;
                                } else {
                                    proof {
                                        lemma_fatal_prefix(ph0, input, k + 1);
                                    }
                                    return true;
                                }
                            }
                        },
                        HttpSeen::Dot => {
                            if b == CR {
                                s = HttpSeen::Cr;
                                i += 1;
                            } else if 0x30 <= b && b <= 0x39 {
                                i += 1;
                            } else {
                                proof {
                                    lemma_fatal_prefix(ph0, input, k + 1);
                                }
                                return true;
                            }
                        },
                        HttpSeen::Cr => {
                            if b == LF {
                                let consumed = i + 1 - he;
                                *read = *read - consumed;
                                *self = RequestParser::Headers {
                                    method_end: me,
                                    path_end: pe,
                                    line_end: i + 1,
                                };
                                proof {
                                    assert(buf@.subrange(i + 1, i + 1 + (r0 - consumed))
                                        =~= input.skip(consumed as int));
                                }
                                return false;
                            } else {
                                proof {
                                    lemma_fatal_prefix(ph0, input, k + 1);
                                }
                                return true;
                            }
                        },
                    }
                }
                *self = RequestParser::Http {
                    method_end: me,
                    path_end: pe,
                    http_end: end,
                    seen: s,
                };
                *read = 0;
                proof {
                    assert(input.take(r0) =~= input);
                    assert(buf@.subrange(end as int, end as int) =~= input.skip(r0));
                }
                false
            },
            RequestParser::Headers { method_end: me, path_end: pe, line_end: le } => {
                // Header bytes are outside this core: consume and ignore them.
                *read = 0;
                proof {
                    lemma_done_absorbs(
                        old(buf)@.subrange(0, me as int),
                        old(buf)@.subrange(me as int, pe as int),
                        input.take(r0),
                    );
                    assert(input.take(r0) =~= input);
                    assert(buf@.subrange(le as int, le as int) =~= input.skip(r0));
                }
                false
            },
        }
    }

    /// Accept incoming data: `read` newly arrived bytes at
    /// `buf[used_space()..]`.  Returns `Err(true)` exactly when the bytes seen
    /// so far can never form a valid request line, else `Err(false)`
    /// (incomplete); success is represented by reaching the `Headers` state.
    #[verifier::loop_isolation(false)]
    pub fn feed(&mut self, buf: &mut Vec<u8>, read: usize) -> (r: Result<(), bool>)
        requires
            old(self).wf(old(buf)@),
            old(self).spec_used_space() + read <= old(buf)@.len(),
        ensures
            final(buf)@.len() == old(buf)@.len(),
            ({
                let u0 = old(self).spec_used_space() as int;
                let ph1 = run(old(self).phase_at(old(buf)@), old(buf)@.subrange(u0, u0 + read));
                &&& r == Err::<(), bool>(ph1 is Failed)
                &&& (!(ph1 is Failed) ==> final(self).wf(final(buf)@) && final(self).phase_at(
                    final(buf)@,
                ) == ph1)
            }),
    {
        let ghost ph0 = old(self).phase_at(old(buf)@);
        let ghost full = old(buf)@.subrange(
            old(self).spec_used_space() as int,
            old(self).spec_used_space() + read,
        );
        let mut rem = read;
        while rem > 0
            invariant
                self.wf(buf@),
                buf@.len() == old(buf)@.len(),
                self.spec_used_space() + rem <= buf@.len(),
                run(
                    self.phase_at(buf@),
                    buf@.subrange(
                        self.spec_used_space() as int,
                        self.spec_used_space() + rem,
                    ),
                ) == run(ph0, full),
            decreases rem,
        {
            let ghost ph_pre = self.phase_at(buf@);
            let ghost win_pre = buf@.subrange(
                self.spec_used_space() as int,
                self.spec_used_space() + rem,
            );
            let ghost r_pre = rem as int;
            let fatal = self.feed_step(buf, &mut rem);
            if fatal {
                return Result::Err(true);
            }
            proof {
                let c = r_pre - rem as int;
                lemma_run_append(ph_pre, win_pre.take(c), win_pre.skip(c));
                assert(win_pre.take(c) + win_pre.skip(c) =~= win_pre);
            }
        }
        proof {
            assert(buf@.subrange(
                self.spec_used_space() as int,
                self.spec_used_space() as int,
            ) =~= Seq::<u8>::empty());
            self.lemma_phase_not_failed(buf@);
        }
        Result::Err(false)
    }

    /// The decision a connection takes after one non-blocking read into
    /// `buf[used_space()..]`: a transport error closes it at once; otherwise
    /// the new bytes are fed and a fatal parse closes it.
    pub fn on_read(&mut self, buf: &mut Vec<u8>, outcome: Option<usize>) -> (close: bool)
        requires
            old(self).wf(old(buf)@),
            (outcome matches Some(count) ==> old(self).spec_used_space() + count <= old(
                buf,
            )@.len()),
        ensures
            final(buf)@.len() == old(buf)@.len(),
            (outcome is None ==> close && *final(self) == *old(self) && final(buf)@ == old(
                buf,
            )@),
            (outcome matches Some(count) ==> {
                let u0 = old(self).spec_used_space() as int;
                let ph1 = run(old(self).phase_at(old(buf)@), old(buf)@.subrange(u0, u0 + count));
                &&& close == (ph1 is Failed)
                &&& (!close ==> final(self).wf(final(buf)@) && final(self).phase_at(final(buf)@)
                    == ph1)
            }),
    {
        match outcome {
            Option::None => true,
            Option::Some(count) => {
                match self.feed(buf, count) {
                    Result::Err(fatal) => fatal,
                    Result::Ok(()) => false,
                }
            },
        }
    }
}

impl Default for RequestParser {
    /// A parser that has seen nothing: its phase is `start_phase()`.
    fn default() -> (r: Self)
        ensures
            r == (RequestParser::Method { method_end: 0usize }),
    {
        RequestParser::Method { method_end: 0 }
    }
}

} // verus!
