//! Scanner/matcher: a four-state byte-driven automaton that splits the
//! input stream into literal bytes and timestamp tokens, replacing each
//! token by its formatted calendar timestamp. The automaton is specified as
//! a pure transition function, and the executable scanner is proved to
//! follow it byte for byte, so output is independent of how the input is
//! cut into chunks.

use vstd::prelude::*;

verus! {

use crate::is_digit;
use crate::all_digits;
use crate::emit;
use crate::writer::emit_buffer;
use crate::codec::resolve;
use crate::codec::digit_run_result;
use crate::codec::is_token;
use crate::codec::spec_format_token;
use crate::codec::emit_date_or_buffer;

/// The automaton's state, carrying the candidate digits accumulated so far.
pub enum ScanState {
    /// No candidate digit run in progress.
    Hunting,
    /// Inside a digit run already known not to qualify.
    Skipping,
    /// One `1` byte is held as the possible start of a candidate.
    MatchStarted,
    /// Accumulating a candidate token (at most 19 digits).
    Matching(Seq<u8>),
}

/// One transition: the next state and the bytes emitted for input byte `b`.
pub open spec fn spec_step(st: ScanState, b: u8) -> (ScanState, Seq<u8>) {
    match st {
        ScanState::Hunting => {
            if is_digit(b) {
                if b == 49 {
                    (ScanState::MatchStarted, Seq::empty())
                } else {
                    (ScanState::Skipping, seq![b])
                }
            } else {
                (ScanState::Hunting, seq![b])
            }
        },
        ScanState::Skipping => {
            if is_digit(b) {
                (ScanState::Skipping, seq![b])
            } else {
                (ScanState::Hunting, seq![b])
            }
        },
        ScanState::MatchStarted => {
            if is_digit(b) {
                if b == 52 || b == 53 {
                    (ScanState::Matching(seq![49u8, b]), Seq::empty())
                } else {
                    (ScanState::Skipping, seq![49u8, b])
                }
            } else {
                (ScanState::Hunting, seq![49u8, b])
            }
        },
        ScanState::Matching(buf) => {
            if is_digit(b) {
                if buf.len() < 19 {
                    (ScanState::Matching(buf.push(b)), Seq::empty())
                } else {
                    (ScanState::Skipping, buf.push(b))
                }
            } else {
                (ScanState::Hunting, resolve(buf) + seq![b])
            }
        },
    }
}

/// What end-of-input makes the automaton emit from state `st`.
pub open spec fn spec_finish(st: ScanState) -> Seq<u8> {
    match st {
        ScanState::Hunting => Seq::empty(),
        ScanState::Skipping => Seq::empty(),
        ScanState::MatchStarted => seq![49u8],
        ScanState::Matching(buf) => resolve(buf),
    }
}

/// Run the automaton over a whole input: the final state and everything
/// emitted along the way.
pub open spec fn spec_run(st: ScanState, input: Seq<u8>) -> (ScanState, Seq<u8>)
    decreases input.len(),
{
    if input.len() == 0 {
        (st, Seq::empty())
    } else {
        let first = spec_step(st, input[0]);
        let rest = spec_run(first.0, input.skip(1));
        (rest.0, first.1 + rest.1)
    }
}

/// The whole transformation: run the automaton from its initial state over
/// the input, then flush whatever end-of-input resolves.
pub open spec fn transduce(input: Seq<u8>) -> Seq<u8> {
    spec_run(ScanState::Hunting, input).1 + spec_finish(spec_run(ScanState::Hunting, input).0)
}

enum State {
    Hunting,
    Skipping,
    MatchStarted,
    Matching,
}

/// The incremental scanner: feed it chunks of any size, then finish once;
/// it appends the transformed stream to an output buffer.
pub struct Scanner {
    state: State,
    buffer: Vec<u8>,
}

impl View for Scanner {
    type V = ScanState;

    closed spec fn view(&self) -> ScanState {
        match self.state {
            State::Hunting => ScanState::Hunting,
            State::Skipping => ScanState::Skipping,
            State::MatchStarted => ScanState::MatchStarted,
            State::Matching => ScanState::Matching(self.buffer@),
        }
    }
}

impl Scanner {
    /// The candidate buffer is empty outside `Matching`; inside it holds 2
    /// to 19 digits beginning with the qualifying prefix.
    pub closed spec fn wf(self) -> bool {
        match self.state {
            State::Matching => {
                &&& 2 <= self.buffer@.len() <= 19
                &&& all_digits(self.buffer@)
                &&& self.buffer@[0] == 49
                &&& (self.buffer@[1] == 52 || self.buffer@[1] == 53)
            },
            _ => self.buffer@.len() == 0,
        }
    }

    pub fn new() -> (r: Scanner)
        ensures
            r.wf(),
            r@ == ScanState::Hunting,
    {
        Scanner { state: State::Hunting, buffer: Vec::new() }
    }

    /// Advance the automaton by one input byte, appending whatever it emits.
    pub fn feed_byte(&mut self, b: u8, out: &mut Vec<u8>)
        requires
            old(self).wf(),
        ensures
            final(self).wf(),
            final(self)@ == spec_step(old(self)@, b).0,
            final(out)@ == old(out)@ + spec_step(old(self)@, b).1,
    {
        let digit: bool = 48 <= b && b <= 57;
        match self.state {
            State::Hunting => {
                if digit {
                    if b == 49 {
                        self.state = State::MatchStarted;
                        assert(out@ =~= old(out)@ + spec_step(old(self)@, b).1);
                    } else {
                        emit(out, b);
                        self.state = State::Skipping;
                        assert(out@ =~= old(out)@ + spec_step(old(self)@, b).1);
                    }
                } else {
                    emit(out, b);
                    assert(out@ =~= old(out)@ + spec_step(old(self)@, b).1);
                }
            },
            State::Skipping => {
                emit(out, b);
                if !digit {
                    self.state = State::Hunting;
                }
                assert(out@ =~= old(out)@ + spec_step(old(self)@, b).1);
            },
            State::MatchStarted => {
                if digit && (b == 52 || b == 53) {
                    self.buffer.push(49);
                    self.buffer.push(b);
                    self.state = State::Matching;
                    assert(self.buffer@ =~= seq![49u8, b]);
                    assert(out@ =~= old(out)@ + spec_step(old(self)@, b).1);
                } else {
                    emit(out, 49);
                    emit(out, b);
                    self.state = if digit {
                        State::Skipping
                    } else {
                        State::Hunting
                    };
                    assert(out@ =~= old(out)@ + spec_step(old(self)@, b).1);
                }
            },
            State::Matching => {
                if digit {
                    if self.buffer.len() < 19 {
                        self.buffer.push(b);
                        assert(out@ =~= old(out)@ + spec_step(old(self)@, b).1);
                    } else {
                        let ghost buf: Seq<u8> = self.buffer@;
                        emit_buffer(out, &mut self.buffer);
                        emit(out, b);
                        self.state = State::Skipping;
                        assert(out@ =~= old(out)@ + buf.push(b));
                    }
                } else {
                    let ghost buf: Seq<u8> = self.buffer@;
                    emit_date_or_buffer(out, &mut self.buffer);
                    emit(out, b);
                    self.state = State::Hunting;
                    assert(out@ =~= old(out)@ + (resolve(buf) + seq![b]));
                }
            },
        }
    }

    /// Feed one chunk of input: the automaton advances over every byte in
    /// order, appending everything it emits.
    pub fn feed(&mut self, chunk: &[u8], out: &mut Vec<u8>)
        requires
            old(self).wf(),
        ensures
            final(self).wf(),
            final(self)@ == spec_run(old(self)@, chunk@).0,
            final(out)@ == old(out)@ + spec_run(old(self)@, chunk@).1,
    {
        let ghost st0: ScanState = self@;
        let ghost start: Seq<u8> = out@;
        let mut i: usize = 0;
        while i < chunk.len()
            invariant
                old(self).wf(),
                self.wf(),
                0 <= i <= chunk@.len(),
                self@ == spec_run(st0, chunk@.take(i as int)).0,
                out@ == start + spec_run(st0, chunk@.take(i as int)).1,
            decreases chunk@.len() - i,
        {
            let ghost pre: Seq<u8> = chunk@.take(i as int);
            let b: u8 = chunk[i];
            self.feed_byte(b, out);
            proof {
                let stp = spec_run(st0, pre).0;
                assert(chunk@.take(i + 1) =~= pre + seq![b]);
                lemma_run_append(st0, pre, seq![b]);
                lemma_run_one(stp, b);
                assert(out@ =~= start + spec_run(st0, chunk@.take(i + 1)).1);
            }
            i += 1;
        }
        proof {
            assert(chunk@.take(chunk@.len() as int) =~= chunk@);
        }
    }

    /// End of input: flush whatever the carry state resolves to and return
    /// to the initial state.
    pub fn finish(&mut self, out: &mut Vec<u8>)
        requires
            old(self).wf(),
        ensures
            final(self).wf(),
            final(self)@ == ScanState::Hunting,
            final(out)@ == old(out)@ + spec_finish(old(self)@),
    {
        match self.state {
            State::Hunting => {
                assert(out@ =~= old(out)@ + spec_finish(old(self)@));
            },
            State::Skipping => {
                self.state = State::Hunting;
                assert(out@ =~= old(out)@ + spec_finish(old(self)@));
            },
            State::MatchStarted => {
                emit(out, 49);
                self.state = State::Hunting;
                assert(out@ =~= old(out)@ + spec_finish(old(self)@));
            },
            State::Matching => {
                emit_date_or_buffer(out, &mut self.buffer);
                self.state = State::Hunting;
            },
        }
    }
}

/// Transform a whole input in one call.
pub fn transduce_bytes(input: &[u8]) -> (out: Vec<u8>)
    ensures
        out@ == transduce(input@),
{
    let mut scanner = Scanner::new();
    let mut out: Vec<u8> = Vec::new();
    scanner.feed(input, &mut out);
    scanner.finish(&mut out);
    proof {
        assert(out@ =~= transduce(input@));
    }
    out
}

/// Chunk-boundary invariance: running the automaton over a concatenation is
/// the same as running it over the parts in turn, states chaining and
/// outputs concatenating. Output therefore never depends on where the input
/// is cut.
pub proof fn lemma_run_append(st: ScanState, a: Seq<u8>, b: Seq<u8>)
    ensures
        spec_run(st, a + b).0 == spec_run(spec_run(st, a).0, b).0,
        spec_run(st, a + b).1 == spec_run(st, a).1 + spec_run(spec_run(st, a).0, b).1,
    decreases a.len(),
{
    if a.len() == 0 {
        assert(a + b =~= b);
        assert(spec_run(st, a).1 + spec_run(spec_run(st, a).0, b).1 =~= spec_run(st, b).1);
    } else {
        let st1 = spec_step(st, a[0]).0;
        assert((a + b)[0] == a[0]);
        assert((a + b).skip(1) =~= a.skip(1) + b);
        lemma_run_append(st1, a.skip(1), b);
        assert(spec_run(st, a + b).1 =~= spec_run(st, a).1 + spec_run(spec_run(st, a).0, b).1);
    }
}

proof fn lemma_all_digits_skip(s: Seq<u8>, k: int)
    requires
        all_digits(s),
        0 <= k <= s.len(),
    ensures
        all_digits(s.skip(k)),
{
    assert forall|i: int| 0 <= i < s.skip(k).len() implies is_digit(#[trigger] s.skip(k)[i]) by {
        assert(s.skip(k)[i] == s[i + k]);
    }
}

proof fn lemma_all_digits_take(s: Seq<u8>, k: int)
    requires
        all_digits(s),
        0 <= k <= s.len(),
    ensures
        all_digits(s.take(k)),
{
    assert forall|i: int| 0 <= i < s.take(k).len() implies is_digit(#[trigger] s.take(k)[i]) by {
        assert(s.take(k)[i] == s[i]);
    }
}

/// Bytes that are no digits pass `Hunting` through unchanged.
proof fn lemma_run_nondigits(input: Seq<u8>)
    requires
        forall|i: int| 0 <= i < input.len() ==> !is_digit(#[trigger] input[i]),
    ensures
        spec_run(ScanState::Hunting, input).0 == ScanState::Hunting,
        spec_run(ScanState::Hunting, input).1 == input,
    decreases input.len(),
{
    if input.len() == 0 {
        assert(spec_run(ScanState::Hunting, input).1 =~= input);
    } else {
        assert(!is_digit(input[0]));
        assert forall|i: int| 0 <= i < input.skip(1).len() implies !is_digit(
            #[trigger] input.skip(1)[i],
        ) by {
            assert(input.skip(1)[i] == input[i + 1]);
        }
        lemma_run_nondigits(input.skip(1));
        assert(spec_run(ScanState::Hunting, input).1 =~= input);
    }
}

/// Pass-through idempotence: an input holding no digit byte is emitted
/// unchanged, byte for byte.
pub proof fn lemma_passthrough(input: Seq<u8>)
    requires
        forall|i: int| 0 <= i < input.len() ==> !is_digit(#[trigger] input[i]),
    ensures
        transduce(input) == input,
{
    lemma_run_nondigits(input);
    assert(transduce(input) =~= input);
}

/// Digits inside a non-qualifying run pass `Skipping` through unchanged.
proof fn lemma_run_skipping(ds: Seq<u8>)
    requires
        all_digits(ds),
    ensures
        spec_run(ScanState::Skipping, ds).0 == ScanState::Skipping,
        spec_run(ScanState::Skipping, ds).1 == ds,
    decreases ds.len(),
{
    if ds.len() == 0 {
        assert(spec_run(ScanState::Skipping, ds).1 =~= ds);
    } else {
        assert(is_digit(ds[0]));
        lemma_all_digits_skip(ds, 1);
        lemma_run_skipping(ds.skip(1));
        assert(spec_run(ScanState::Skipping, ds).1 =~= ds);
    }
}

/// While the candidate buffer has room, digits only accumulate.
proof fn lemma_run_matching_fill(buf: Seq<u8>, ds: Seq<u8>)
    requires
        all_digits(ds),
        buf.len() + ds.len() <= 19,
    ensures
        spec_run(ScanState::Matching(buf), ds).0 == ScanState::Matching(buf + ds),
        spec_run(ScanState::Matching(buf), ds).1 == Seq::<u8>::empty(),
    decreases ds.len(),
{
    if ds.len() == 0 {
        assert(buf + ds =~= buf);
        assert(spec_run(ScanState::Matching(buf), ds).1 =~= Seq::<u8>::empty());
    } else {
        assert(is_digit(ds[0]));
        lemma_all_digits_skip(ds, 1);
        lemma_run_matching_fill(buf.push(ds[0]), ds.skip(1));
        assert(buf.push(ds[0]) + ds.skip(1) =~= buf + ds);
        assert(spec_run(ScanState::Matching(buf), ds).1 =~= Seq::<u8>::empty());
    }
}

/// A digit arriving on a full candidate buffer flushes it verbatim and
/// leaves the rest of the run to pass through.
proof fn lemma_run_matching_overflow(buf: Seq<u8>, ds: Seq<u8>)
    requires
        all_digits(ds),
        buf.len() == 19,
        ds.len() >= 1,
    ensures
        spec_run(ScanState::Matching(buf), ds).0 == ScanState::Skipping,
        spec_run(ScanState::Matching(buf), ds).1 == buf + ds,
{
    assert(is_digit(ds[0]));
    lemma_all_digits_skip(ds, 1);
    lemma_run_skipping(ds.skip(1));
    assert(spec_run(ScanState::Matching(buf), ds).1 =~= buf + ds);
}

/// A one-byte input advances the automaton by exactly one transition.
proof fn lemma_run_one(st: ScanState, b: u8)
    ensures
        spec_run(st, seq![b]).0 == spec_step(st, b).0,
        spec_run(st, seq![b]).1 == spec_step(st, b).1,
{
    reveal_with_fuel(spec_run, 3);
    assert(seq![b][0] == b);
    assert(seq![b].skip(1) =~= Seq::<u8>::empty());
    assert(spec_run(spec_step(st, b).0, Seq::<u8>::empty()).1 == Seq::<u8>::empty());
    assert(spec_run(st, seq![b]).1 =~= spec_step(st, b).1);
}

/// A digit run whose first digits could still grow into a token.
spec fn is_candidate(ds: Seq<u8>) -> bool {
    &&& 2 <= ds.len() <= 19
    &&& ds[0] == 49
    &&& (ds[1] == 52 || ds[1] == 53)
}

/// Where one whole digit run takes the automaton from `Hunting`: a lone
/// `1` is held, a candidate is buffered whole with nothing emitted, and
/// every other run is emitted verbatim.
proof fn lemma_run_digits(ds: Seq<u8>)
    requires
        ds.len() > 0,
        all_digits(ds),
    ensures
        ds.len() == 1 && ds[0] == 49 ==> spec_run(ScanState::Hunting, ds).0
            == ScanState::MatchStarted && spec_run(ScanState::Hunting, ds).1
            == Seq::<u8>::empty(),
        is_candidate(ds) ==> spec_run(ScanState::Hunting, ds).0 == ScanState::Matching(ds)
            && spec_run(ScanState::Hunting, ds).1 == Seq::<u8>::empty(),
        !(ds.len() == 1 && ds[0] == 49) && !is_candidate(ds) ==> spec_run(
            ScanState::Hunting,
            ds,
        ).0 == ScanState::Skipping && spec_run(ScanState::Hunting, ds).1 == ds,
{
    let b0 = ds[0];
    assert(is_digit(b0));
    lemma_all_digits_skip(ds, 1);
    if b0 != 49 {
        lemma_run_skipping(ds.skip(1));
        assert(spec_run(ScanState::Hunting, ds).1 =~= ds);
    } else if ds.len() == 1 {
        assert(ds.skip(1) =~= Seq::<u8>::empty());
        assert(spec_run(ScanState::Hunting, ds).1 =~= Seq::<u8>::empty());
    } else {
        let b1 = ds[1];
        let r1 = ds.skip(1);
        assert(r1[0] == b1);
        assert(r1.skip(1) =~= ds.skip(2));
        lemma_all_digits_skip(ds, 2);
        assert(is_digit(b1));
        if b1 != 52 && b1 != 53 {
            lemma_run_skipping(ds.skip(2));
            assert(spec_run(ScanState::MatchStarted, r1).1 =~= seq![49u8, b1] + ds.skip(2));
            assert(seq![49u8, b1] + ds.skip(2) =~= ds);
            assert(spec_run(ScanState::Hunting, ds).1 =~= ds);
        } else {
            let buf2 = seq![49u8, b1];
            let rest = ds.skip(2);
            assert(buf2 + rest =~= ds);
            if ds.len() <= 19 {
                lemma_run_matching_fill(buf2, rest);
                assert(spec_run(ScanState::Hunting, ds).0 == ScanState::Matching(ds));
                assert(spec_run(ScanState::Hunting, ds).1 =~= Seq::<u8>::empty());
            } else {
                let dt = rest.take(17);
                let dsk = rest.skip(17);
                assert(dt + dsk =~= rest);
                lemma_all_digits_take(rest, 17);
                lemma_all_digits_skip(rest, 17);
                lemma_run_append(ScanState::Matching(buf2), dt, dsk);
                lemma_run_matching_fill(buf2, dt);
                lemma_run_matching_overflow(buf2 + dt, dsk);
                assert(spec_run(ScanState::Matching(buf2), rest).0 == ScanState::Skipping);
                assert(spec_run(ScanState::Matching(buf2), rest).1 =~= (buf2 + dt) + dsk);
                assert((buf2 + dt) + dsk =~= ds);
                assert(spec_run(ScanState::Hunting, ds).1 =~= ds);
            }
        }
    }
}

/// A standalone digit run is evaluated as one candidate, never in parts:
/// it is replaced by exactly one formatted timestamp when its length is 10
/// to 19 and its first two digits form "14" or "15"; every other run —
/// shorter, longer, or with another prefix — is emitted verbatim.
pub proof fn lemma_digit_run(input: Seq<u8>)
    requires
        input.len() > 0,
        all_digits(input),
    ensures
        transduce(input) == digit_run_result(input),
{
    lemma_run_digits(input);
    if input.len() == 1 && input[0] == 49 {
        assert(transduce(input) =~= seq![49u8]);
        assert(seq![49u8] =~= input);
    } else if is_candidate(input) {
        if input.len() >= 10 {
            assert(is_token(input));
            assert(transduce(input) =~= spec_format_token(input));
        } else {
            assert(transduce(input) =~= input);
        }
    } else {
        assert(!is_token(input));
        assert(transduce(input) =~= input);
    }
}

/// Stream decomposition: a leading digit run, the non-digit byte bounding
/// it, and the remainder transform independently. The run is evaluated
/// whole by the length and prefix rule, the boundary byte passes through,
/// and the remainder is transformed as a fresh stream. Together with
/// `lemma_digit_run` (an input that is all digits) and `lemma_passthrough`
/// this determines the output for every input, run by run.
pub proof fn lemma_transduce_decompose(ds: Seq<u8>, y: u8, rest: Seq<u8>)
    requires
        all_digits(ds),
        !is_digit(y),
    ensures
        spec_run(ScanState::Hunting, ds + seq![y] + rest).0 == spec_run(
            ScanState::Hunting,
            rest,
        ).0,
        transduce(ds + seq![y] + rest) == digit_run_result(ds) + seq![y] + transduce(rest),
{
    let input = ds + seq![y] + rest;
    let tail = seq![y] + rest;
    assert(input =~= ds + tail);
    lemma_run_append(ScanState::Hunting, ds, tail);
    let st1 = spec_run(ScanState::Hunting, ds).0;
    lemma_run_append(st1, seq![y], rest);
    lemma_run_one(st1, y);
    if ds.len() == 0 {
        assert(st1 == ScanState::Hunting);
        assert(!is_token(ds));
        assert(transduce(input) =~= ds + seq![y] + transduce(rest));
    } else {
        lemma_run_digits(ds);
        if ds.len() == 1 && ds[0] == 49 {
            assert(st1 == ScanState::MatchStarted);
            assert(spec_step(st1, y).1 =~= ds + seq![y]);
            assert(!is_token(ds));
            assert(transduce(input) =~= ds + seq![y] + transduce(rest));
        } else if is_candidate(ds) {
            assert(st1 == ScanState::Matching(ds));
            assert(spec_step(st1, y).1 == resolve(ds) + seq![y]);
            if ds.len() >= 10 {
                assert(is_token(ds));
                assert(transduce(input) =~= spec_format_token(ds) + seq![y] + transduce(rest));
            } else {
                assert(!is_token(ds));
                assert(transduce(input) =~= ds + seq![y] + transduce(rest));
            }
        } else {
            assert(st1 == ScanState::Skipping);
            assert(!is_token(ds));
            assert(transduce(input) =~= ds + seq![y] + transduce(rest));
        }
    }
}

/// Adjacency inside a stream: a digit run bounded on both sides by
/// non-digit bytes is one candidate, evaluated whole by the length and
/// prefix rule, with the bounding bytes passed through around it — never
/// split into two tokens, never joined with bytes beyond its boundaries.
pub proof fn lemma_embedded_run(x: u8, ds: Seq<u8>, y: u8)
    requires
        !is_digit(x),
        !is_digit(y),
        ds.len() > 0,
        all_digits(ds),
    ensures
        spec_run(ScanState::Hunting, seq![x] + ds + seq![y]).0 == ScanState::Hunting,
        transduce(seq![x] + ds + seq![y]) == seq![x] + digit_run_result(ds) + seq![y],
{
    let input = seq![x] + ds + seq![y];
    lemma_transduce_decompose(Seq::empty(), x, ds + seq![y]);
    lemma_transduce_decompose(ds, y, Seq::empty());
    assert(input =~= Seq::<u8>::empty() + seq![x] + (ds + seq![y]));
    assert(ds + seq![y] =~= ds + seq![y] + Seq::<u8>::empty());
    assert(transduce(Seq::<u8>::empty()) =~= Seq::<u8>::empty());
    assert(transduce(input) =~= seq![x] + (if is_token(ds) {
        spec_format_token(ds)
    } else {
        ds
    }) + seq![y]);
    assert(spec_run(ScanState::Hunting, input).0 == spec_run(
        ScanState::Hunting,
        Seq::<u8>::empty(),
    ).0);
}

/// Length of the maximal digit run at the head of the input.
pub open spec fn run_len(s: Seq<u8>) -> nat
    decreases s.len(),
{
    if s.len() == 0 || !is_digit(s[0]) {
        0
    } else {
        (1 + run_len(s.skip(1))) as nat
    }
}

proof fn lemma_run_len_props(s: Seq<u8>)
    ensures
        run_len(s) <= s.len(),
        all_digits(s.take(run_len(s) as int)),
        run_len(s) < s.len() ==> !is_digit(s[run_len(s) as int]),
        s.len() > 0 && is_digit(s[0]) ==> run_len(s) >= 1,
    decreases s.len(),
{
    if s.len() == 0 || !is_digit(s[0]) {
        assert(s.take(0) =~= Seq::<u8>::empty());
    } else {
        lemma_run_len_props(s.skip(1));
        let k = run_len(s) as int;
        let k1 = run_len(s.skip(1)) as int;
        assert(k == 1 + k1);
        assert forall|i: int| 0 <= i < k implies is_digit(#[trigger] s.take(k)[i]) by {
            assert(s.take(k)[i] == s[i]);
            if i >= 1 {
                assert(s.skip(1).take(k1)[i - 1] == s.skip(1)[i - 1]);
                assert(s.skip(1)[i - 1] == s[i]);
                assert(is_digit(s.skip(1).take(k1)[i - 1]));
            }
        }
        if k < s.len() {
            assert(s.skip(1)[k1] == s[k]);
        }
    }
}

/// The declarative reading of the whole transformation: split the input
/// into maximal digit runs, replace each run that qualifies as a token by
/// its formatted timestamp, and keep every other byte.
pub open spec fn rewrite(s: Seq<u8>) -> Seq<u8>
    decreases s.len(),
{
    if s.len() == 0 {
        Seq::empty()
    } else if !is_digit(s[0]) {
        seq![s[0]] + rewrite(s.skip(1))
    } else {
        let k = run_len(s);
        if k >= s.len() {
            digit_run_result(s)
        } else {
            digit_run_result(s.take(k as int)) + seq![s[k as int]] + rewrite(s.skip(k as int + 1))
        }
    }
}

/// The automaton computes the declarative rewrite: for every input, the
/// streamed output equals the result of replacing each maximal qualifying
/// digit run by its formatted timestamp and passing all else through.
pub proof fn lemma_transduce_rewrite(input: Seq<u8>)
    ensures
        transduce(input) == rewrite(input),
    decreases input.len(),
{
    lemma_run_len_props(input);
    if input.len() == 0 {
        assert(transduce(input) =~= rewrite(input));
    } else if !is_digit(input[0]) {
        lemma_transduce_decompose(Seq::empty(), input[0], input.skip(1));
        assert(Seq::<u8>::empty() + seq![input[0]] + input.skip(1) =~= input);
        lemma_transduce_rewrite(input.skip(1));
        assert(!is_token(Seq::<u8>::empty()));
        assert(transduce(input) =~= seq![input[0]] + rewrite(input.skip(1)));
    } else {
        let k = run_len(input);
        if k >= input.len() {
            assert(input.take(k as int) =~= input);
            assert(all_digits(input));
            lemma_digit_run(input);
        } else {
            let ds = input.take(k as int);
            let y = input[k as int];
            let rest = input.skip(k as int + 1);
            assert(!is_digit(y));
            assert(ds + seq![y] + rest =~= input);
            lemma_transduce_decompose(ds, y, rest);
            lemma_transduce_rewrite(rest);
            assert(transduce(input) =~= digit_run_result(ds) + seq![y] + rewrite(rest));
        }
    }
}

} // verus!
