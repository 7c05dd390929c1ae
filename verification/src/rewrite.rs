//! The streaming cue rewriter: a two-state machine over input lines
//! that recognizes cue header lines (`start --> end`), corrects both
//! timestamps with the drift model, renumbers the cues from zero, and
//! copies payload lines unchanged. Index lines and malformed headers
//! are dropped; the output is a fresh blank line, the new index, and
//! the corrected header before each cue's payload.

use vstd::prelude::*;

use crate::drift::DriftParameters;
use crate::drift::apply_drift;
use crate::text::dec_digits;
use crate::text::num_to_string;
use crate::text::trim;
use crate::text::trim_spec;
use crate::timestamp::Timestamp;
use crate::timestamp::format_spec;
use crate::timestamp::parse_spec;

verus! {

/// The two states of the rewriter.
#[derive(Clone, Copy, PartialEq, Eq, Structural, Debug)]
pub enum RewriteState {
    /// The next line is tested as a cue header.
    AwaitingCue,
    /// Payload lines are copied until a blank line.
    InPayload,
}

/// An occurrence of the literal `-->` at position `i` of `s`.
pub open spec fn arrow_at(s: Seq<char>, i: int) -> bool {
    &&& 0 <= i
    &&& i + 3 <= s.len()
    &&& s[i] == '-'
    &&& s[i + 1] == '-'
    &&& s[i + 2] == '>'
}

/// `s` holds exactly one occurrence of `-->`, so splitting on it
/// yields exactly two parts.
pub open spec fn unique_arrow(s: Seq<char>) -> bool {
    exists|i: int|
        #[trigger] arrow_at(s, i) && (forall|j: int| #[trigger] arrow_at(s, j) ==> j == i)
}

/// The position of the only `-->` of `s`; meaningful under
/// `unique_arrow(s)`.
pub open spec fn arrow_pos(s: Seq<char>) -> int {
    choose|i: int| arrow_at(s, i) && (forall|j: int| #[trigger] arrow_at(s, j) ==> j == i)
}

/// A position holding `-->` that excludes every other is the unique
/// arrow position.
pub proof fn lemma_arrow_unique(s: Seq<char>, f: int)
    requires
        arrow_at(s, f),
        forall|j: int| #[trigger] arrow_at(s, j) ==> j == f,
    ensures
        unique_arrow(s),
        arrow_pos(s) == f,
{
    assert(unique_arrow(s));
    let c = arrow_pos(s);
    assert(arrow_at(s, c) && (forall|j: int| #[trigger] arrow_at(s, j) ==> j == c));
}

/// The corrected millisecond totals of a line accepted as a cue
/// header: the line must hold exactly one `-->`, both trimmed sides
/// must parse, and both corrected values must stay in range.
pub open spec fn header_result(p: DriftParameters, line: Seq<char>) -> Option<(int, int)> {
    if unique_arrow(line) {
        let pos = arrow_pos(line);
        let left = trim_spec(line.take(pos));
        let right = trim_spec(line.skip(pos + 3));
        match (parse_spec(left), parse_spec(right)) {
            (Some(av), Some(bv)) => {
                let a2 = av + p.offset_spec(av);
                let b2 = bv + p.offset_spec(bv);
                if -2147483648 <= a2 <= 2147483647 && -2147483648 <= b2 <= 2147483647 {
                    Some((a2, b2))
                } else {
                    None
                }
            },
            _ => None,
        }
    } else {
        None
    }
}

/// The three lines that announce a corrected cue: a fresh blank line,
/// the new zero-based index, and the corrected header.
pub open spec fn header_lines(idx: int, a2: int, b2: int) -> Seq<Seq<char>> {
    seq![
        Seq::<char>::empty(),
        dec_digits(idx as nat),
        format_spec(a2).add((" --> ")@).add(format_spec(b2)),
    ]
}

/// One step of the rewriter on one input line: the next state, the
/// next cue index, and the lines emitted for this input line. In
/// `InPayload` a non-empty line is copied unchanged; a blank line, or
/// any line in `AwaitingCue`, is tested as a cue header and otherwise
/// dropped.
pub open spec fn step_spec(
    p: DriftParameters,
    st: RewriteState,
    idx: int,
    line: Seq<char>,
) -> (RewriteState, int, Seq<Seq<char>>) {
    if st is InPayload && line.len() > 0 {
        (RewriteState::InPayload, idx, seq![line])
    } else {
        match header_result(p, line) {
            Some((a2, b2)) => (RewriteState::InPayload, idx + 1, header_lines(idx, a2, b2)),
            None => (RewriteState::AwaitingCue, idx, Seq::<Seq<char>>::empty()),
        }
    }
}

/// The rewriter run over a whole line sequence: final state, final cue
/// count, and the concatenated output lines.
pub open spec fn run_spec(
    p: DriftParameters,
    lines: Seq<Seq<char>>,
    st: RewriteState,
    idx: int,
) -> (RewriteState, int, Seq<Seq<char>>)
    decreases lines.len(),
{
    if lines.len() == 0 {
        (st, idx, Seq::<Seq<char>>::empty())
    } else {
        let s1 = step_spec(p, st, idx, lines[0]);
        let r = run_spec(p, lines.skip(1), s1.0, s1.1);
        (r.0, r.1, s1.2.add(r.2))
    }
}

/// A header-shaped line whose sides do not both parse is dropped: no
/// output, no state change, and the cue counter does not move.
pub proof fn lemma_malformed_header_dropped(p: DriftParameters, idx: int, line: Seq<char>)
    requires
        unique_arrow(line),
        parse_spec(trim_spec(line.take(arrow_pos(line)))) is None || parse_spec(
            trim_spec(line.skip(arrow_pos(line) + 3)),
        ) is None,
    ensures
        step_spec(p, RewriteState::AwaitingCue, idx, line) == (
            RewriteState::AwaitingCue,
            idx,
            Seq::<Seq<char>>::empty(),
        ),
{
}

/// Finds the position of the only `-->` of `line`, or `None` when the
/// line holds no occurrence or more than one.
fn find_unique_arrow(line: &str) -> (r: Option<usize>)
    ensures
        (r is Some) == unique_arrow(line@),
        r is Some ==> arrow_at(line@, r->0 as int) && arrow_pos(line@) == r->0 as int && r->0 + 3
            <= line@.len(),
{
    let n = line.unicode_len();
    let mut first: usize = 0;
    let mut have_first = false;
    let mut multi = false;
    if n >= 3 {
        let mut i: usize = 0;
        while i <= n - 3
            invariant
                n == line@.len(),
                3 <= n,
                0 <= i <= n - 2,
                have_first ==> arrow_at(line@, first as int) && (first as int) < i,
                have_first ==> (forall|j: int|
                    0 <= j < first ==> !(#[trigger] arrow_at(line@, j))),
                have_first && !multi ==> (forall|j: int|
                    0 <= j < i && j != first ==> !(#[trigger] arrow_at(line@, j))),
                !have_first ==> !multi && (forall|j: int|
                    0 <= j < i ==> !(#[trigger] arrow_at(line@, j))),
                multi ==> have_first && (exists|j: int|
                    first < j < i && #[trigger] arrow_at(line@, j)),
            decreases n - i,
        {
            let c1 = line.get_char(i);
            let c2 = line.get_char(i + 1);
            let c3 = line.get_char(i + 2);
            let is_arrow = c1 == '-' && c2 == '-' && c3 == '>';
            proof {
                assert(is_arrow == arrow_at(line@, i as int));
            }
            if is_arrow {
                if !have_first {
                    have_first = true;
                    first = i;
                } else {
                    multi = true;
                }
            }
            i = i + 1;
        }
    }
    proof {
        assert(forall|j: int| #[trigger] arrow_at(line@, j) ==> 0 <= j <= n - 3);
        if have_first && !multi {
            lemma_arrow_unique(line@, first as int);
        } else if have_first {
            let j2 = choose|j: int| first < j < line@.len() && #[trigger] arrow_at(line@, j);
            assert(arrow_at(line@, j2));
            assert(!unique_arrow(line@)) by {
                if unique_arrow(line@) {
                    let i0 = choose|i: int|
                        #[trigger] arrow_at(line@, i) && (forall|j: int|
                            #[trigger] arrow_at(line@, j) ==> j == i);
                    assert(first as int == i0 && j2 == i0);
                }
            }
        } else {
            assert(!unique_arrow(line@));
        }
    }
    if have_first && !multi {
        Some(first)
    } else {
        None
    }
}

/// The streaming rewriter: drift model, current state, and the index
/// the next recognized cue will receive.
pub struct CueRewriter {
    pub params: DriftParameters,
    pub state: RewriteState,
    pub next_index: usize,
}

impl CueRewriter {
    /// The rewriter is usable: its drift model is.
    pub open spec fn wf(self) -> bool {
        self.params.wf()
    }

    /// A fresh rewriter awaiting its first cue.
    pub fn new(params: DriftParameters) -> (r: CueRewriter)
        requires
            params.wf(),
        ensures
            r.params == params,
            r.state == RewriteState::AwaitingCue,
            r.next_index == 0,
            r.wf(),
    {
        CueRewriter { params, state: RewriteState::AwaitingCue, next_index: 0 }
    }

    /// Feeds one input line; returns the lines to emit for it, exactly
    /// as `step_spec` states.
    pub fn process_line(&mut self, line: &str) -> (out: Vec<String>)
        requires
            old(self).wf(),
            old(self).next_index < usize::MAX,
        ensures
            final(self).params == old(self).params,
            final(self).wf(),
            ({
                let s = step_spec(
                    old(self).params,
                    old(self).state,
                    old(self).next_index as int,
                    line@,
                );
                &&& final(self).state == s.0
                &&& final(self).next_index as int == s.1
                &&& out.deep_view() == s.2
            }),
    {
        let is_payload = match self.state {
            RewriteState::InPayload => true,
            RewriteState::AwaitingCue => false,
        };
        if is_payload && !line.is_empty() {
            let copied = vec![String::from_str(line)];
            proof {
                assert(copied.deep_view() =~~= seq![line@]);
            }
            return copied;
        }
        self.state = RewriteState::AwaitingCue;
        let n = line.unicode_len();
        let first = match find_unique_arrow(line) {
            Some(f) => f,
            None => {
                return Vec::new();
            },
        };
        let left = line.substring_char(0, first);
        let right = line.substring_char(first + 3, n);
        proof {
            assert(left@ =~= line@.take(arrow_pos(line@)));
            assert(right@ =~= line@.skip(arrow_pos(line@) + 3));
        }
        let lt = trim(left);
        let rt = trim(right);
        let a = match Timestamp::parse(lt.as_str()) {
            Some(t) => t,
            None => {
                return Vec::new();
            },
        };
        let b = match Timestamp::parse(rt.as_str()) {
            Some(t) => t,
            None => {
                return Vec::new();
            },
        };
        let a2 = match apply_drift(&self.params, a) {
            Some(t) => t,
            None => {
                return Vec::new();
            },
        };
        let b2 = match apply_drift(&self.params, b) {
            Some(t) => t,
            None => {
                return Vec::new();
            },
        };
        let mut out: Vec<String> = Vec::new();
        out.push(String::new());
        out.push(num_to_string(self.next_index as u64));
        let header = a2.to_text().concat(" --> ").concat(b2.to_text().as_str());
        out.push(header);
        self.state = RewriteState::InPayload;
        self.next_index = self.next_index + 1;
        proof {
            let s = step_spec(
                old(self).params,
                old(self).state,
                old(self).next_index as int,
                line@,
            );
            assert(header@ =~= format_spec(a2.total_milliseconds as int).add((" --> ")@).add(
                format_spec(b2.total_milliseconds as int),
            ));
            assert(out.deep_view() =~~= s.2);
        }
        out
    }
}

/// Rewrites a whole file, given as its sequence of lines: returns the
/// output lines and the count of cues that were recognized, corrected
/// and renumbered, exactly as `run_spec` states.
#[verifier::rlimit(100)]
pub fn rewrite_lines(params: DriftParameters, lines: &Vec<String>) -> (r: (Vec<String>, usize))
    requires
        params.wf(),
    ensures
        ({
            let run = run_spec(params, lines.deep_view(), RewriteState::AwaitingCue, 0);
            &&& r.0.deep_view() == run.2
            &&& r.1 as int == run.1
        }),
{
    let ghost full = run_spec(params, lines.deep_view(), RewriteState::AwaitingCue, 0);
    let mut rw = CueRewriter::new(params);
    let mut out: Vec<String> = Vec::new();
    let mut i: usize = 0;
    proof {
        assert(lines.deep_view().skip(0) =~~= lines.deep_view());
    }
    while i < lines.len()
        invariant
            params.wf(),
            rw.params == params,
            rw.wf(),
            i <= lines.len(),
            rw.next_index <= i,
            full == run_spec(params, lines.deep_view(), RewriteState::AwaitingCue, 0),
            ({
                let rest = run_spec(
                    params,
                    lines.deep_view().skip(i as int),
                    rw.state,
                    rw.next_index as int,
                );
                &&& full.0 == rest.0
                &&& full.1 == rest.1
                &&& full.2 == out.deep_view().add(rest.2)
            }),
        decreases lines.len() - i,
    {
        let ghost pre_state = rw.state;
        let ghost pre_idx = rw.next_index as int;
        let mut produced = rw.process_line(lines[i].as_str());
        proof {
            let tail = lines.deep_view().skip(i as int);
            assert(tail[0] == lines.deep_view()[i as int]);
            assert(tail.skip(1) =~~= lines.deep_view().skip(i as int + 1));
            let s1 = step_spec(params, pre_state, pre_idx, tail[0]);
            assert(run_spec(params, tail, pre_state, pre_idx) == (
                run_spec(params, tail.skip(1), s1.0, s1.1).0,
                run_spec(params, tail.skip(1), s1.0, s1.1).1,
                s1.2.add(run_spec(params, tail.skip(1), s1.0, s1.1).2),
            ));
        }
        let ghost out_before = out.deep_view();
        let ghost prod_view = produced.deep_view();
        out.append(&mut produced);
        proof {
            assert(out.deep_view() =~~= out_before.add(prod_view));
            let rest = run_spec(
                params,
                lines.deep_view().skip(i as int + 1),
                rw.state,
                rw.next_index as int,
            );
            assert(full.2 == out.deep_view().add(rest.2)) by {
                assert(out_before.add(prod_view).add(rest.2) =~~= out_before.add(
                    prod_view.add(rest.2),
                ));
            }
        }
        i = i + 1;
    }
    proof {
        assert(lines.deep_view().skip(i as int) =~~= Seq::<Seq<char>>::empty());
        let rest = run_spec(
            params,
            lines.deep_view().skip(i as int),
            rw.state,
            rw.next_index as int,
        );
        assert(rest.2 =~~= Seq::<Seq<char>>::empty());
        assert(full.2 =~~= out.deep_view().add(rest.2));
        assert(out.deep_view().add(Seq::<Seq<char>>::empty()) =~~= out.deep_view());
    }
    let count = rw.next_index;
    (out, count)
}

} // verus!
