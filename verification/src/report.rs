//! What the command line does with the spans of a document: the
//! `--trace` and `--errors-only` selections, and what is reported.

use vstd::prelude::*;
use vstd::string::*;
use crate::text::str_eq;
use crate::render::{
    FlatSpan, trace_members, forest_finite, forest_is_finite, render_trace_tree,
    spec_render_trace_tree,
};

verus! {

/// What `str::to_lowercase` gives for `s` (Unicode lowercase mapping).
pub uninterp spec fn unicode_lowercase(s: Seq<char>) -> Seq<char>;

/// std's `str::to_lowercase`: the Unicode lowercase of `s`.
#[verifier::external_body]
fn to_lowercase(s: &str) -> (r: String)
    ensures
        r@ == unicode_lowercase(s@),
{
    s.to_lowercase()
}

/// Keeps the spans of trace `trace_id`, compared in lowercase.
pub fn select_trace(spans: Vec<FlatSpan>, trace_id: &str) -> (r: Vec<FlatSpan>)
    ensures
        r@ == trace_members(spans@, unicode_lowercase(trace_id@)),
{
    let wanted = to_lowercase(trace_id);
    keep_trace(spans, wanted.as_str())
}

/// Keeps the spans whose trace id is exactly `wanted`, in order.
pub fn keep_trace(spans: Vec<FlatSpan>, wanted: &str) -> (r: Vec<FlatSpan>)
    ensures
        r@ == trace_members(spans@, wanted@),
{
    let wanted = String::from_str(wanted);
    let ghost all = spans@;
    let mut out: Vec<FlatSpan> = Vec::new();
    for s in it: spans.into_iter()
        invariant
            it.seq() == all,
            out@ == trace_members(all.take(it.index() as int), wanted@),
    {
        let ghost i = it.index();
        proof {
            assert(all.take(i + 1).drop_last() =~= all.take(i as int));
            assert(all.take(i + 1).last() == s);
        }
        if s.trace_id == wanted {
            out.push(s);
        }
    }
    proof {
        assert(all.take(all.len() as int) =~= all);
    }
    out
}

/// Whether some span of trace `t` has status ERROR.
pub open spec fn trace_has_error(spans: Seq<FlatSpan>, t: Seq<char>) -> bool {
    exists|j: int| 0 <= j < spans.len() && #[trigger] spans[j].status_code@ == "ERROR"@ && spans[j].trace_id@ == t
}

/// The spans of `cands` whose trace has an ERROR span among `spans`, in order.
pub open spec fn error_trace_spans(spans: Seq<FlatSpan>, cands: Seq<FlatSpan>) -> Seq<FlatSpan>
    decreases cands.len(),
{
    if cands.len() == 0 {
        Seq::empty()
    } else {
        let rest = error_trace_spans(spans, cands.drop_last());
        if trace_has_error(spans, cands.last().trace_id@) {
            rest.push(cands.last())
        } else {
            rest
        }
    }
}

fn has_error_exec(spans: &Vec<FlatSpan>, t: &String) -> (r: bool)
    ensures
        r == trace_has_error(spans@, t@),
{
    let mut j: usize = 0;
    while j < spans.len()
        invariant
            j <= spans@.len(),
            forall|q: int|
                0 <= q < j ==> !(#[trigger] spans@[q].status_code@ == "ERROR"@ && spans@[q].trace_id@
                    == t@),
        decreases spans.len() - j,
    {
        if str_eq(spans[j].status_code, "ERROR") && spans[j].trace_id == *t {
            return true;
        }
        j = j + 1;
    }
    false
}

/// Keeps the spans of the traces that hold at least one span with
/// status ERROR (whole traces: their other spans too). Each trace is
/// checked by a scan: vstd gives `String` keys no hash model, so a
/// `HashSet<String>` of error trace ids would carry no specification.
pub fn keep_error_traces(spans: Vec<FlatSpan>) -> (r: Vec<FlatSpan>)
    ensures
        r@ == error_trace_spans(spans@, spans@),
{
    let mut flags: Vec<bool> = Vec::new();
    let mut k: usize = 0;
    while k < spans.len()
        invariant
            k <= spans@.len(),
            flags@.len() == k,
            forall|q: int|
                0 <= q < k ==> #[trigger] flags@[q] == trace_has_error(spans@, spans@[q].trace_id@),
        decreases spans.len() - k,
    {
        let e = has_error_exec(&spans, &spans[k].trace_id);
        flags.push(e);
        k = k + 1;
    }
    let ghost all = spans@;
    let n = spans.len();
    let mut out: Vec<FlatSpan> = Vec::new();
    let mut idx: usize = 0;
    for s in it: spans.into_iter()
        invariant
            it.seq() == all,
            idx == it.index(),
            n == all.len(),
            flags@.len() == all.len(),
            forall|q: int|
                0 <= q < all.len() ==> #[trigger] flags@[q] == trace_has_error(all, all[q].trace_id@),
            out@ == error_trace_spans(all, all.take(it.index() as int)),
    {
        let ghost i = it.index();
        proof {
            assert(all.take(i + 1).drop_last() =~= all.take(i as int));
            assert(all.take(i + 1).last() == s);
        }
        let keep = flags[idx];
        assert(idx < flags@.len());
        if keep {
            out.push(s);
        }
        idx = idx + 1;
    }
    proof {
        assert(all.take(all.len() as int) =~= all);
    }
    out
}

/// What a run reports.
#[derive(Debug)]
pub enum Report {
    /// The document holds no spans.
    NoSpans,
    /// No span belongs to the requested trace.
    NoSpansForTrace,
    /// No selected trace holds a span with status ERROR.
    NoErrorTraces,
    /// In some selected trace, following child links from its roots comes
    /// back to an id it passed through, so its tree has no end.
    EndlessTree,
    /// The rendered span trees.
    Rendered(String),
}

/// The spans left after the `--trace` selection.
pub open spec fn after_trace(spans: Seq<FlatSpan>, trace: Option<Seq<char>>) -> Seq<FlatSpan> {
    match trace {
        Some(t) => trace_members(spans, unicode_lowercase(t)),
        None => spans,
    }
}

/// The spans left after the `--errors-only` selection.
pub open spec fn after_errors(spans: Seq<FlatSpan>, errors_only: bool) -> Seq<FlatSpan> {
    if errors_only {
        error_trace_spans(spans, spans)
    } else {
        spans
    }
}

pub open spec fn opt_str(s: Option<&str>) -> Option<Seq<char>> {
    match s {
        Some(x) => Some(x@),
        None => None,
    }
}

/// What is reported for `spans`, the `--trace` value and `--errors-only`.
pub open spec fn spec_report(spans: Seq<FlatSpan>, trace: Option<Seq<char>>, errors_only: bool, r: Report) -> bool {
    let picked = after_trace(spans, trace);
    let kept = after_errors(picked, errors_only);
    if spans.len() == 0 {
        r is NoSpans
    } else if trace is Some && picked.len() == 0 {
        r is NoSpansForTrace
    } else if errors_only && kept.len() == 0 {
        r is NoErrorTraces
    } else if !forest_finite(kept) {
        r is EndlessTree
    } else {
        r matches Report::Rendered(text) && text@ == spec_render_trace_tree(kept)
    }
}

/// Selects the spans as the command line asks and renders them, or says
/// why there is nothing to render.
pub fn report(spans: Vec<FlatSpan>, trace: Option<&str>, errors_only: bool) -> (r: Report)
    ensures
        spec_report(spans@, opt_str(trace), errors_only, r),
{
    if spans.len() == 0 {
        return Report::NoSpans;
    }
    let ghost all = spans@;
    let picked = match trace {
        Some(t) => {
            let p = select_trace(spans, t);
            if p.len() == 0 {
                return Report::NoSpansForTrace;
            }
            p
        },
        None => spans,
    };
    assert(picked@ == after_trace(all, opt_str(trace)));
    let kept = if errors_only {
        let k = keep_error_traces(picked);
        if k.len() == 0 {
            return Report::NoErrorTraces;
        }
        k
    } else {
        picked
    };
    if !forest_is_finite(kept.as_slice()) {
        return Report::EndlessTree;
    }
    Report::Rendered(render_trace_tree(kept.as_slice()))
}

} // verus!
