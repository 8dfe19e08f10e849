//! The stream parser: turns the bytes a shell writes into styled runs of
//! text, keeping an unterminated escape sequence across calls.
use vstd::prelude::*;
use crate::format::{FormatState, ESC, LF, CR, is_alpha, sequence_effect, default_format, lemma_reset_sequence};

verus! {

/// The text that `String::from_utf8_lossy` makes of a byte string.
pub uninterp spec fn lossy_text(b: Seq<u8>) -> Seq<char>;

/// Relies on `String::from_utf8_lossy`: it decodes UTF-8, replacing each
/// invalid sequence, and its text depends on the bytes alone.
#[verifier::external_body]
fn decode_lossy(b: &[u8]) -> (r: String)
    ensures
        r@ == lossy_text(b@),
{
    String::from_utf8_lossy(b).into_owned()
}

/// A span of text emitted under one pen state.
#[derive(Debug)]
pub struct StyledRun {
    pub text: String,
    pub format: FormatState,
}

/// A run before its bytes are decoded to text.
pub type RawRun = (Seq<u8>, FormatState);

/// Where a pass over the input stands: the escape sequence in progress, the
/// pen, the text not yet emitted, and the runs emitted so far.
pub struct Scan {
    pub partial: Seq<u8>,
    pub format: FormatState,
    pub pending: Seq<u8>,
    pub runs: Seq<RawRun>,
}

/// The state a pass starts in: the carried sequence and pen, nothing else.
pub open spec fn start(partial: Seq<u8>, format: FormatState) -> Scan {
    Scan { partial, format, pending: Seq::empty(), runs: Seq::empty() }
}

/// The runs once the pending text, if any, is emitted as a run.
pub open spec fn flushed(s: Scan) -> Seq<RawRun> {
    if s.pending.len() > 0 {
        s.runs.push((s.pending, s.format))
    } else {
        s.runs
    }
}

/// One byte of input.
pub open spec fn step(s: Scan, b: u8) -> Scan {
    if b == ESC {
        Scan { partial: s.partial.push(b), format: s.format, pending: Seq::empty(), runs: flushed(s) }
    } else if b == LF || b == CR {
        Scan {
            partial: s.partial,
            format: s.format,
            pending: Seq::empty(),
            runs: flushed(s).push((seq![b], s.format)),
        }
    } else if s.partial.len() > 0 {
        let p = s.partial.push(b);
        if is_alpha(b) {
            Scan { partial: Seq::empty(), format: sequence_effect(s.format, p), ..s }
        } else {
            Scan { partial: p, ..s }
        }
    } else {
        Scan { pending: s.pending.push(b), ..s }
    }
}

/// A pass over `bytes`, byte by byte, from `s`.
pub open spec fn scan_from(s: Scan, bytes: Seq<u8>) -> Scan
    decreases bytes.len(),
{
    if bytes.len() == 0 {
        s
    } else {
        step(scan_from(s, bytes.drop_last()), bytes.last())
    }
}

/// The runs that one call on `bytes` emits, its pending text flushed at
/// the end.
pub open spec fn tick_runs(partial: Seq<u8>, format: FormatState, bytes: Seq<u8>) -> Seq<RawRun> {
    flushed(scan_from(start(partial, format), bytes))
}

/// The runs with their bytes decoded.
pub open spec fn rendered(raw: Seq<RawRun>) -> Seq<(Seq<char>, FormatState)> {
    raw.map_values(|r: RawRun| (lossy_text(r.0), r.1))
}

/// A sequence in progress: empty, or an ESC followed by bytes none of which
/// is a letter (a letter ends the sequence).
pub open spec fn partial_ok(p: Seq<u8>) -> bool {
    p.len() == 0 || (p[0] == ESC && forall|j: int| 0 <= j < p.len() ==> !is_alpha(#[trigger] p[j]))
}

pub struct ParserView {
    pub partial: Seq<u8>,
    pub format: FormatState,
    pub runs: Seq<(Seq<char>, FormatState)>,
}

/// Consumes the terminal's output stream and grows the sequence of runs.
pub struct StreamParser {
    partial: Vec<u8>,
    format: FormatState,
    runs: Vec<StyledRun>,
}

impl View for StreamParser {
    type V = ParserView;

    closed spec fn view(&self) -> ParserView {
        ParserView {
            partial: self.partial@,
            format: self.format,
            runs: self.runs@.map_values(|r: StyledRun| (r.text@, r.format)),
        }
    }
}

proof fn lemma_rendered_push(raw: Seq<RawRun>, r: RawRun)
    ensures
        rendered(raw.push(r)) == rendered(raw).push((lossy_text(r.0), r.1)),
{
    assert(rendered(raw.push(r)) =~= rendered(raw).push((lossy_text(r.0), r.1)));
}

proof fn lemma_rendered_concat(x: Seq<RawRun>, y: Seq<RawRun>)
    ensures
        rendered(x + y) == rendered(x) + rendered(y),
{
    assert(rendered(x + y) =~= rendered(x) + rendered(y));
}

proof fn lemma_scan_concat(s: Scan, a: Seq<u8>, b: Seq<u8>)
    ensures
        scan_from(s, a + b) == scan_from(scan_from(s, a), b),
    decreases b.len(),
{
    if b.len() == 0 {
        assert(a + b =~= a);
    } else {
        lemma_scan_concat(s, a, b.drop_last());
        assert((a + b).drop_last() =~= a + b.drop_last());
        assert((a + b).last() == b.last());
    }
}

/// `t` with `r` emitted before its own runs.
spec fn with_earlier_runs(t: Scan, r: Seq<RawRun>) -> Scan {
    Scan { runs: r + t.runs, ..t }
}

proof fn lemma_flushed_earlier(t: Scan, r: Seq<RawRun>)
    ensures
        flushed(with_earlier_runs(t, r)) == r + flushed(t),
{
    if t.pending.len() > 0 {
        assert((r + t.runs).push((t.pending, t.format)) =~= r + t.runs.push((t.pending, t.format)));
    }
}

proof fn lemma_step_earlier(t: Scan, r: Seq<RawRun>, b: u8)
    ensures
        step(with_earlier_runs(t, r), b) == with_earlier_runs(step(t, b), r),
{
    lemma_flushed_earlier(t, r);
    let f = flushed(t);
    assert((r + f).push((seq![b], t.format)) =~= r + f.push((seq![b], t.format)));
}

proof fn lemma_scan_earlier(t: Scan, r: Seq<RawRun>, bytes: Seq<u8>)
    ensures
        scan_from(with_earlier_runs(t, r), bytes) == with_earlier_runs(scan_from(t, bytes), r),
    decreases bytes.len(),
{
    if bytes.len() > 0 {
        lemma_scan_earlier(t, r, bytes.drop_last());
        lemma_step_earlier(scan_from(t, bytes.drop_last()), r, bytes.last());
    }
}

/// Split invariance. Feeding `a` and then `b` in two calls gives the same
/// runs, the same pen and the same sequence in progress as feeding `a + b`
/// in one call. A call emits its pending text at its end, so the one
/// exception is a split inside a stretch of plain text: the first call
/// ends with text pending and the second starts with more text.
pub proof fn law_split_invariance(partial: Seq<u8>, format: FormatState, a: Seq<u8>, b: Seq<u8>)
    requires
        scan_from(start(partial, format), a).pending.len() == 0 || b.len() == 0 || b[0] == ESC
            || b[0] == LF || b[0] == CR,
    ensures
        ({
            let first = scan_from(start(partial, format), a);
            let second = scan_from(start(first.partial, first.format), b);
            let whole = scan_from(start(partial, format), a + b);
            &&& tick_runs(partial, format, a) + tick_runs(first.partial, first.format, b)
                == tick_runs(partial, format, a + b)
            &&& rendered(tick_runs(partial, format, a)) + rendered(
                tick_runs(first.partial, first.format, b),
            ) == rendered(tick_runs(partial, format, a + b))
            &&& second.partial == whole.partial
            &&& second.format == whole.format
        }),
{
    let first = scan_from(start(partial, format), a);
    let fresh = start(first.partial, first.format);
    let second = scan_from(fresh, b);
    lemma_rendered_concat(tick_runs(partial, format, a), tick_runs(first.partial, first.format, b));
    lemma_scan_concat(start(partial, format), a, b);
    if b.len() == 0 {
        assert(a + b =~= a);
        assert(scan_from(first, b) == first);
        assert(second == fresh);
        assert(flushed(fresh) =~= Seq::<RawRun>::empty());
        assert(flushed(first) + flushed(fresh) =~= flushed(first));
        assert(tick_runs(partial, format, a) == flushed(first));
        assert(tick_runs(first.partial, first.format, b) == flushed(fresh));
        assert(tick_runs(partial, format, a + b) == flushed(first));
    } else if first.pending.len() == 0 {
        assert(first == with_earlier_runs(fresh, first.runs)) by {
            assert(first.runs + fresh.runs =~= first.runs);
            assert(first.pending =~= fresh.pending);
        }
        lemma_scan_earlier(fresh, first.runs, b);
        lemma_flushed_earlier(second, first.runs);
        assert(tick_runs(partial, format, a + b) == first.runs + flushed(second));
    } else {
        let rest = b.skip(1);
        assert(b =~= seq![b[0]] + rest);
        lemma_scan_concat(first, seq![b[0]], rest);
        lemma_scan_concat(fresh, seq![b[0]], rest);
        assert(seq![b[0]].drop_last() =~= Seq::<u8>::empty());
        let t = step(fresh, b[0]);
        assert(scan_from(fresh, seq![b[0]]) == step(scan_from(fresh, Seq::empty()), b[0]));
        assert(scan_from(first, seq![b[0]]) == step(scan_from(first, Seq::empty()), b[0]));
        assert(scan_from(fresh, seq![b[0]]) == t);
        assert(step(first, b[0]) == with_earlier_runs(t, flushed(first))) by {
            assert(flushed(fresh) =~= Seq::<RawRun>::empty());
            assert(flushed(first) + Seq::<RawRun>::empty() =~= flushed(first));
            assert(flushed(first).push((seq![b[0]], first.format))
                =~= flushed(first) + Seq::<RawRun>::empty().push((seq![b[0]], first.format)));
        }
        lemma_scan_earlier(t, flushed(first), rest);
        lemma_flushed_earlier(second, flushed(first));
        assert(second == scan_from(t, rest));
        assert(scan_from(first, b) == with_earlier_runs(second, flushed(first)));
        assert(tick_runs(partial, format, a + b) == flushed(first) + flushed(second));
    }
}

/// Bytes that are all plain text: no ESC and no line break.
pub open spec fn plain_text(t: Seq<u8>) -> bool {
    forall|j: int| 0 <= j < t.len() ==> t[j] != ESC && t[j] != LF && t[j] != CR
}

proof fn lemma_scan_plain(s: Scan, t: Seq<u8>)
    requires
        s.partial.len() == 0,
        plain_text(t),
    ensures
        scan_from(s, t) == (Scan { pending: s.pending + t, ..s }),
    decreases t.len(),
{
    if t.len() == 0 {
        assert(s.pending + t =~= s.pending);
    } else {
        let u = t.drop_last();
        assert(plain_text(u)) by {
            assert forall|j: int| 0 <= j < u.len() implies u[j] != ESC && u[j] != LF && u[j] != CR by {
                assert(u[j] == t[j]);
            }
        }
        lemma_scan_plain(s, u);
        assert((s.pending + u).push(t.last()) =~= s.pending + t);
    }
}

/// SGR reset. `ESC [ 0 m` followed by plain text sets the default pen,
/// whatever pen was in effect, and the text comes out as one run under it.
/// A sequence in progress that already holds a `[` would absorb the reset
/// into its own parameters; such a prefix is left out.
pub proof fn law_reset(partial: Seq<u8>, format: FormatState, text: Seq<u8>)
    requires
        forall|j: int| 0 <= j < partial.len() ==> partial[j] != 0x5b,
        plain_text(text),
    ensures
        ({
            let input = seq![ESC, 0x5b, 0x30, 0x6d] + text;
            let end = scan_from(start(partial, format), input);
            &&& end.format == default_format()
            &&& end.partial.len() == 0
            &&& tick_runs(partial, format, input) == if text.len() > 0 {
                seq![(text, default_format())]
            } else {
                Seq::empty()
            }
        }),
{
    let sgr = seq![ESC, 0x5b, 0x30, 0x6d];
    let st = start(partial, format);
    lemma_scan_concat(st, sgr, text);
    let s1 = step(st, ESC);
    let s2 = step(s1, 0x5b);
    let s3 = step(s2, 0x30);
    let s4 = step(s3, 0x6d);
    let q1 = seq![ESC];
    let q2 = seq![ESC, 0x5bu8];
    let q3 = seq![ESC, 0x5bu8, 0x30u8];
    assert(q1.drop_last() =~= Seq::<u8>::empty());
    assert(q2.drop_last() =~= q1);
    assert(q3.drop_last() =~= q2);
    assert(sgr.drop_last() =~= q3);
    assert(scan_from(st, Seq::<u8>::empty()) == st);
    assert(scan_from(st, q1) == s1);
    assert(scan_from(st, q2) == s2);
    assert(scan_from(st, q3) == s3);
    assert(scan_from(st, sgr) == s4);
    assert(s3.partial =~= partial.push(ESC).push(0x5b).push(0x30));
    assert(s3.partial.push(0x6d) =~= partial + sgr);
    lemma_reset_sequence(format, partial);
    assert(s4.pending.len() == 0);
    assert(s4.runs.len() == 0);
    lemma_scan_plain(s4, text);
    let end = scan_from(s4, text);
    assert(end.pending =~= text);
    if text.len() > 0 {
        assert(flushed(end) =~= seq![(text, default_format())]);
    }
}

/// Bytes that continue an escape sequence without ending it.
pub open spec fn sequence_body(q: Seq<u8>) -> bool {
    forall|j: int|
        0 <= j < q.len() ==> q[j] != ESC && q[j] != LF && q[j] != CR && !is_alpha(#[trigger] q[j])
}

proof fn lemma_scan_sequence_body(s: Scan, q: Seq<u8>)
    requires
        s.partial.len() > 0,
        sequence_body(q),
    ensures
        scan_from(s, q) == (Scan { partial: s.partial + q, ..s }),
    decreases q.len(),
{
    if q.len() == 0 {
        assert(s.partial + q =~= s.partial);
    } else {
        let u = q.drop_last();
        assert(sequence_body(u)) by {
            assert forall|j: int| 0 <= j < u.len() implies u[j] != ESC && u[j] != LF && u[j] != CR
                && !is_alpha(#[trigger] u[j]) by {
                assert(u[j] == q[j]);
            }
        }
        assert(!is_alpha(q[q.len() - 1]));
        lemma_scan_sequence_body(s, u);
        assert((s.partial + u).push(q.last()) =~= s.partial + q);
    }
}

/// Unknown sequences are harmless. A CSI sequence `ESC [ ... x` whose final
/// letter `x` is not `m` emits no run and leaves the pen as it was; plain
/// text after it comes out as one run under that pen.
pub proof fn law_unknown_sequence(
    partial: Seq<u8>,
    format: FormatState,
    params: Seq<u8>,
    last: u8,
    text: Seq<u8>,
)
    requires
        sequence_body(params),
        is_alpha(last),
        last != 0x6d,
        plain_text(text),
    ensures
        ({
            let input = seq![ESC, 0x5b] + params + seq![last] + text;
            let end = scan_from(start(partial, format), input);
            &&& end.format == format
            &&& end.partial.len() == 0
            &&& tick_runs(partial, format, input) == if text.len() > 0 {
                seq![(text, format)]
            } else {
                Seq::empty()
            }
        }),
{
    let st = start(partial, format);
    let intro = seq![ESC, 0x5bu8];
    let body = intro.drop_first() + params;
    assert(sequence_body(body)) by {
        assert forall|j: int| 0 <= j < body.len() implies body[j] != ESC && body[j] != LF
            && body[j] != CR && !is_alpha(#[trigger] body[j]) by {
            if j > 0 {
                assert(body[j] == params[j - 1]);
            }
        }
    }
    let head = seq![ESC] + body;
    assert(head =~= intro + params);
    let s1 = step(st, ESC);
    assert(seq![ESC].drop_last() =~= Seq::<u8>::empty());
    assert(scan_from(st, Seq::<u8>::empty()) == st);
    assert(scan_from(st, seq![ESC]) == s1);
    lemma_scan_concat(st, seq![ESC], body);
    lemma_scan_sequence_body(s1, body);
    let s2 = scan_from(st, head);
    assert(s2.pending.len() == 0);
    assert(s2.runs.len() == 0);
    let s3 = step(s2, last);
    let with_last = head + seq![last];
    assert(with_last.drop_last() =~= head);
    assert(scan_from(st, with_last) == s3);
    assert(s2.partial.push(last).last() == last);
    assert(s3.format == format);
    let input = with_last + text;
    assert(input =~= seq![ESC, 0x5b] + params + seq![last] + text);
    lemma_scan_concat(st, with_last, text);
    lemma_scan_plain(s3, text);
    let end = scan_from(s3, text);
    assert(end.pending =~= text);
    if text.len() > 0 {
        assert(flushed(end) =~= seq![(text, format)]);
    }
}

/// Each byte of a run, tagged with the run's pen.
pub open spec fn tagged(r: RawRun) -> Seq<(u8, FormatState)> {
    r.0.map_values(|b: u8| (b, r.1))
}

/// The runs as one stream of bytes, each tagged with its pen: what is
/// shown, whatever the places where one run ends and the next begins.
pub open spec fn styled_bytes(runs: Seq<RawRun>) -> Seq<(u8, FormatState)>
    decreases runs.len(),
{
    if runs.len() == 0 {
        Seq::empty()
    } else {
        styled_bytes(runs.drop_last()) + tagged(runs.last())
    }
}

/// Text is pending only outside an escape sequence.
spec fn pending_ok(s: Scan) -> bool {
    s.pending.len() > 0 ==> s.partial.len() == 0
}

/// `w` and `c` are passes over the same bytes, `w` from `s` and `c` from
/// the carried state of `s` alone; they agree on the styled bytes.
spec fn passes_agree(s: Scan, w: Scan, c: Scan) -> bool {
    &&& w.partial == c.partial
    &&& w.format == c.format
    &&& pending_ok(w)
    &&& pending_ok(c)
    &&& styled_bytes(w.runs) + tagged((w.pending, w.format)) == styled_bytes(flushed(s))
        + styled_bytes(c.runs) + tagged((c.pending, c.format))
}

proof fn lemma_styled_bytes_push(runs: Seq<RawRun>, r: RawRun)
    ensures
        styled_bytes(runs.push(r)) == styled_bytes(runs) + tagged(r),
{
    assert(runs.push(r).drop_last() =~= runs);
}

proof fn lemma_styled_bytes_flushed(s: Scan)
    ensures
        styled_bytes(flushed(s)) == styled_bytes(s.runs) + tagged((s.pending, s.format)),
{
    if s.pending.len() > 0 {
        lemma_styled_bytes_push(s.runs, (s.pending, s.format));
    } else {
        assert(tagged((s.pending, s.format)) =~= Seq::empty());
        assert(styled_bytes(s.runs) + Seq::<(u8, FormatState)>::empty() =~= styled_bytes(s.runs));
    }
}

proof fn lemma_step_agree(s: Scan, w: Scan, c: Scan, b: u8)
    requires
        passes_agree(s, w, c),
    ensures
        passes_agree(s, step(w, b), step(c, b)),
{
    let x = styled_bytes(flushed(s));
    let wf = w.format;
    let empty_tag = tagged((Seq::<u8>::empty(), wf));
    assert(empty_tag =~= Seq::empty());
    if b == ESC || b == LF || b == CR {
        lemma_styled_bytes_flushed(w);
        lemma_styled_bytes_flushed(c);
        let fw = styled_bytes(flushed(w));
        let fc = styled_bytes(flushed(c));
        assert(fw == x + fc) by {
            assert(x + styled_bytes(c.runs) + tagged((c.pending, c.format)) =~= x + (
            styled_bytes(c.runs) + tagged((c.pending, c.format))));
        }
        if b == ESC {
            assert(fw + empty_tag =~= fw);
            assert(fc + empty_tag =~= fc);
            assert(x + fc + empty_tag =~= x + fc);
        } else {
            let line = (seq![b], wf);
            lemma_styled_bytes_push(flushed(w), line);
            lemma_styled_bytes_push(flushed(c), line);
            assert((fw + tagged(line)) + empty_tag =~= x + (fc + tagged(line)) + empty_tag);
        }
    } else if w.partial.len() > 0 {
        assert(w.pending.len() == 0);
        assert(c.pending.len() == 0);
        let p = w.partial.push(b);
        let nf = if is_alpha(b) { sequence_effect(wf, p) } else { wf };
        assert(tagged((w.pending, nf)) =~= Seq::empty());
        assert(tagged((c.pending, nf)) =~= Seq::empty());
        assert(tagged((w.pending, wf)) =~= Seq::empty());
        assert(tagged((c.pending, wf)) =~= Seq::empty());
    } else {
        let tb = seq![(b, wf)];
        assert(tagged((w.pending.push(b), wf)) =~= tagged((w.pending, wf)) + tb);
        assert(tagged((c.pending.push(b), wf)) =~= tagged((c.pending, wf)) + tb);
        let lhs = styled_bytes(w.runs) + tagged((w.pending, wf));
        let rhs = x + styled_bytes(c.runs) + tagged((c.pending, wf));
        assert(styled_bytes(w.runs) + (tagged((w.pending, wf)) + tb) =~= lhs + tb);
        assert(x + styled_bytes(c.runs) + (tagged((c.pending, wf)) + tb) =~= rhs + tb);
    }
}

proof fn lemma_scan_agree(s: Scan, w: Scan, c: Scan, bytes: Seq<u8>)
    requires
        passes_agree(s, w, c),
    ensures
        passes_agree(s, scan_from(w, bytes), scan_from(c, bytes)),
    decreases bytes.len(),
{
    if bytes.len() > 0 {
        lemma_scan_agree(s, w, c, bytes.drop_last());
        lemma_step_agree(s, scan_from(w, bytes.drop_last()), scan_from(c, bytes.drop_last()), bytes.last());
    }
}

proof fn lemma_scan_pending_ok(s: Scan, bytes: Seq<u8>)
    requires
        pending_ok(s),
    ensures
        pending_ok(scan_from(s, bytes)),
    decreases bytes.len(),
{
    if bytes.len() > 0 {
        lemma_scan_pending_ok(s, bytes.drop_last());
    }
}

/// Split invariance of what is shown. However `a + b` is cut into two
/// calls, the runs they emit spell the same bytes under the same pens as
/// the runs of one call on `a + b`.
pub proof fn law_split_invariance_styled(partial: Seq<u8>, format: FormatState, a: Seq<u8>, b: Seq<u8>)
    ensures
        ({
            let first = scan_from(start(partial, format), a);
            styled_bytes(tick_runs(partial, format, a)) + styled_bytes(
                tick_runs(first.partial, first.format, b),
            ) == styled_bytes(tick_runs(partial, format, a + b))
        }),
{
    let st = start(partial, format);
    let first = scan_from(st, a);
    let fresh = start(first.partial, first.format);
    lemma_scan_concat(st, a, b);
    lemma_scan_pending_ok(st, a);
    let x = styled_bytes(flushed(first));
    lemma_styled_bytes_flushed(first);
    assert(styled_bytes(fresh.runs) =~= Seq::empty());
    assert(tagged((fresh.pending, fresh.format)) =~= Seq::empty());
    assert(x + styled_bytes(fresh.runs) + tagged((fresh.pending, fresh.format)) =~= x);
    assert(passes_agree(first, first, fresh));
    lemma_scan_agree(first, first, fresh, b);
    let w = scan_from(first, b);
    let c = scan_from(fresh, b);
    lemma_styled_bytes_flushed(w);
    lemma_styled_bytes_flushed(c);
    assert(x + styled_bytes(c.runs) + tagged((c.pending, c.format)) =~= x + (styled_bytes(c.runs)
        + tagged((c.pending, c.format))));
}

impl StreamParser {
    /// A parser with no runs, no sequence in progress and the given pen.
    pub fn new(format: FormatState) -> (r: StreamParser)
        ensures
            r@.partial.len() == 0,
            r@.format == format,
            r@.runs.len() == 0,
    {
        let r = StreamParser { partial: Vec::new(), format, runs: Vec::new() };
        assert(r@.runs =~= Seq::<(Seq<char>, FormatState)>::empty());
        r
    }

    /// The runs emitted so far, oldest first.
    pub fn runs(&self) -> (r: &Vec<StyledRun>)
        ensures
            r@.map_values(|x: StyledRun| (x.text@, x.format)) == self@.runs,
    {
        &self.runs
    }

    /// The pen in effect now.
    pub fn format(&self) -> (r: FormatState)
        ensures
            r == self@.format,
    {
        self.format
    }

    /// The escape sequence in progress, empty when there is none.
    pub fn partial_sequence(&self) -> (r: &[u8])
        ensures
            r@ == self@.partial,
    {
        self.partial.as_slice()
    }

    /// Emits `pending` as a run under the current pen, if it holds any
    /// text, and empties it.
    fn flush_pending(&mut self, pending: &mut Vec<u8>)
        ensures
            final(pending)@.len() == 0,
            final(self)@.partial == old(self)@.partial,
            final(self)@.format == old(self)@.format,
            old(pending)@.len() > 0 ==> final(self)@.runs == old(self)@.runs.push(
                (lossy_text(old(pending)@), old(self)@.format),
            ),
            old(pending)@.len() == 0 ==> final(self)@.runs == old(self)@.runs,
    {
        if pending.len() > 0 {
            let text = decode_lossy(pending.as_slice());
            let run = StyledRun { text, format: self.format };
            let ghost before = self.runs@;
            self.runs.push(run);
            assert(self.runs@.map_values(|x: StyledRun| (x.text@, x.format)) =~= before.map_values(
                |x: StyledRun| (x.text@, x.format),
            ).push((lossy_text(old(pending)@), self.format)));
            pending.clear();
        }
    }

    /// Consumes one chunk of output: appends the runs it completes, updates
    /// the pen, and keeps an unterminated escape sequence for the next call.
    pub fn append_new_output(&mut self, new_output: &[u8])
        requires
            partial_ok(old(self)@.partial),
        ensures
            partial_ok(final(self)@.partial),
            final(self)@.partial == scan_from(
                start(old(self)@.partial, old(self)@.format),
                new_output@,
            ).partial,
            final(self)@.format == scan_from(
                start(old(self)@.partial, old(self)@.format),
                new_output@,
            ).format,
            final(self)@.runs == old(self)@.runs + rendered(
                tick_runs(old(self)@.partial, old(self)@.format, new_output@),
            ),
    {
        let ghost st0 = start(self@.partial, self@.format);
        let ghost runs0 = self@.runs;
        let mut pending: Vec<u8> = Vec::new();
        let mut i: usize = 0;
        proof {
            assert(new_output@.take(0) =~= Seq::<u8>::empty());
            assert(rendered(Seq::empty()) =~= Seq::<(Seq<char>, FormatState)>::empty());
            assert(runs0 + rendered(Seq::empty()) =~= runs0);
        }
        while i < new_output.len()
            invariant
                i <= new_output@.len(),
                partial_ok(self@.partial),
                self@.partial == scan_from(st0, new_output@.take(i as int)).partial,
                self@.format == scan_from(st0, new_output@.take(i as int)).format,
                pending@ == scan_from(st0, new_output@.take(i as int)).pending,
                self@.runs == runs0 + rendered(scan_from(st0, new_output@.take(i as int)).runs),
            decreases new_output.len() - i,
        {
            let b = new_output[i];
            let ghost s = scan_from(st0, new_output@.take(i as int));
            proof {
                assert(new_output@.take(i + 1).drop_last() =~= new_output@.take(i as int));
                assert(new_output@.take(i + 1).last() == b);
                assert(scan_from(st0, new_output@.take(i + 1)) == step(s, b));
                if pending@.len() > 0 {
                    lemma_rendered_push(s.runs, (s.pending, s.format));
                    assert(runs0 + rendered(s.runs).push((lossy_text(s.pending), s.format))
                        =~= (runs0 + rendered(s.runs)).push((lossy_text(s.pending), s.format)));
                }
            }
            if b == ESC {
                self.flush_pending(&mut pending);
                self.partial.push(b);
            } else if b == LF || b == CR {
                self.flush_pending(&mut pending);
                let one: Vec<u8> = vec![b];
                let text = decode_lossy(one.as_slice());
                let ghost before = self.runs@;
                self.runs.push(StyledRun { text, format: self.format });
                proof {
                    assert(one@ =~= seq![b]);
                    assert(self.runs@.map_values(|x: StyledRun| (x.text@, x.format))
                        =~= before.map_values(|x: StyledRun| (x.text@, x.format)).push(
                        (lossy_text(seq![b]), self.format),
                    ));
                    lemma_rendered_push(flushed(s), (seq![b], s.format));
                    assert(runs0 + rendered(flushed(s)).push((lossy_text(seq![b]), s.format))
                        =~= (runs0 + rendered(flushed(s))).push((lossy_text(seq![b]), s.format)));
                }
            } else if self.partial.len() > 0 {
                self.partial.push(b);
                if (0x41 <= b && b <= 0x5a) || (0x61 <= b && b <= 0x7a) {
                    self.format.apply_sequence(self.partial.as_slice());
                    self.partial.clear();
                }
            } else {
                pending.push(b);
            }
            i = i + 1;
        }
        proof {
            let s = scan_from(st0, new_output@.take(i as int));
            assert(new_output@.take(i as int) =~= new_output@);
            if pending@.len() > 0 {
                lemma_rendered_push(s.runs, (s.pending, s.format));
                assert(runs0 + rendered(s.runs).push((lossy_text(s.pending), s.format))
                    =~= (runs0 + rendered(s.runs)).push((lossy_text(s.pending), s.format)));
            }
        }
        self.flush_pending(&mut pending);
    }
}

} // verus!
